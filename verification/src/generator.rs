//! The schema unifier.
//!
//! [`CodeGenerator::new`] folds every locale's parsed categories into one
//! canonical field-metadata table per category name and one filled field
//! table per locale and category, exactly as [`crate::schema::spec_unify`]
//! defines.  All tables are association lists in strictly ascending key
//! order, so iteration over the result is in one fixed total order.

use vstd::prelude::*;

use crate::alist::{al_find, al_get, al_set, al_sorted};
use crate::chars::{char_from_u32, string_of, to_chars};
use crate::grammar::GVal;
use crate::parser::{Object, Value as PValue};
use crate::schema::{
    bl_wf, cat_wf, cats_wf, mt_wf,
    at_map, classify_group, check_links, check_lang_links, fill_all, fill_fields, fill_lang,
    find_norm, fold_groups, fold_locales, fold_objects, group_runs, is_link_shape,
    is_skipped_category, known_locales, lit_copy, lit_include, nonempty_runs, norm_at, norm_key,
    repl_all, resolve_link, run_tags_are, runs_tags_are, spec_into_array, spec_into_array_2d,
    spec_make_optional, spec_mark_array, spec_mark_array_2d, spec_mark_int, spec_mark_str,
    spec_meta_new, spec_unify, upper_map, GCat, GFVal, GGen, GSchemaErr, UState,
};

verus! {

/// The scalar type of a canonical field.
#[derive(Debug, Clone, Copy, PartialEq, Eq, Structural)]
pub enum Type {
    String,
    Integer,
}

/// The arity class of a canonical field.
#[derive(Debug, Clone, Copy, PartialEq, Eq, Structural)]
pub enum ContainerType {
    Singleton,
    Array,
    Array2D,
}

impl ContainerType {
    /// Widens a scalar to an array; anything wider stays as it is.
    pub fn into_array(self) -> (r: ContainerType)
        ensures
            r == spec_into_array(self),
    {
        match self {
            ContainerType::Singleton => ContainerType::Array,
            _ => self,
        }
    }

    /// Widens a scalar or an array to a matrix.
    pub fn into_array_2d(self) -> (r: ContainerType)
        ensures
            r == spec_into_array_2d(self),
    {
        match self {
            ContainerType::Singleton => ContainerType::Array2D,
            ContainerType::Array => ContainerType::Array2D,
            _ => self,
        }
    }
}

/// What is known of one canonical field: scalar type, arity class,
/// optionality.  The type is `None` until some locale supplies a value.
#[derive(Debug, Clone, Copy, PartialEq, Eq, Structural)]
pub struct Meta {
    pub optional: bool,
    pub container_ty: ContainerType,
    pub ty: Option<Type>,
}

impl DeepView for Meta {
    type V = Meta;

    open spec fn deep_view(&self) -> Meta {
        *self
    }
}

impl Meta {
    pub fn new() -> (r: Meta)
        ensures
            r == spec_meta_new(),
    {
        Meta { optional: false, container_ty: ContainerType::Singleton, ty: None }
    }

    /// A textual value was seen: the type is `String` for good.
    pub fn mark_str(&mut self)
        ensures
            *final(self) == spec_mark_str(*old(self)),
    {
        self.ty = Some(Type::String);
    }

    /// An integer value was seen: the type becomes `Integer` unless text was
    /// ever seen.
    pub fn mark_int(&mut self)
        ensures
            *final(self) == spec_mark_int(*old(self)),
    {
        self.ty = match self.ty {
            Some(Type::String) => Some(Type::String),
            _ => Some(Type::Integer),
        };
    }

    /// Some locale lacks this field.
    pub fn make_optional(&mut self)
        ensures
            *final(self) == spec_make_optional(*old(self)),
    {
        self.optional = true;
    }

    pub fn mark_array(&mut self)
        ensures
            *final(self) == spec_mark_array(*old(self)),
    {
        self.container_ty = self.container_ty.into_array();
    }

    pub fn mark_array_2d(&mut self)
        ensures
            *final(self) == spec_mark_array_2d(*old(self)),
    {
        self.container_ty = self.container_ty.into_array_2d();
    }
}

/// One field's unified value in one locale.
#[derive(Debug, Clone, PartialEq)]
pub enum Value {
    Empty,
    Literal(PValue),
    Array(Vec<PValue>),
    Array2d(Vec<Vec<PValue>>),
}

impl DeepView for Value {
    type V = GFVal;

    open spec fn deep_view(&self) -> GFVal {
        match self {
            Value::Empty => GFVal::Empty,
            Value::Literal(v) => GFVal::Literal(v.deep_view()),
            Value::Array(vs) => GFVal::Array(vs.deep_view()),
            Value::Array2d(vss) => GFVal::Array2d(vss.deep_view()),
        }
    }
}

/// One category in one locale: an alias of another locale's same-named
/// category, or its own field table.
#[derive(Debug, Clone, PartialEq)]
pub enum Category {
    Link(String, String),
    Fields(Vec<(String, Value)>),
}

impl DeepView for Category {
    type V = GCat;

    open spec fn deep_view(&self) -> GCat {
        match self {
            Category::Link(t, c) => GCat::Link(t@, c@),
            Category::Fields(f) => GCat::Fields(f.deep_view()),
        }
    }
}

/// Why unification failed; each variant names the offending locale and
/// category.
#[derive(Debug, Clone, PartialEq)]
pub enum SchemaError {
    /// A `copy`/`include` names a locale that is not in the input set.
    UnknownLocale { locale: String, category: String, target: String },
    /// A `copy`/`include` whose payload is not exactly one quoted string.
    BadLinkPayload { locale: String, category: String },
    /// One key's runs mix integer and textual values.
    MixedType { locale: String, category: String, key: String },
    /// A link chain ends at a locale that lacks the category.
    UnresolvedLink { locale: String, category: String },
    /// A link chain never reaches a field table.
    LinkCycle { locale: String, category: String },
}

impl DeepView for SchemaError {
    type V = GSchemaErr;

    open spec fn deep_view(&self) -> GSchemaErr {
        match self {
            SchemaError::UnknownLocale { locale, category, target } => GSchemaErr::UnknownLocale {
                locale: locale@,
                category: category@,
                target: target@,
            },
            SchemaError::BadLinkPayload { locale, category } => GSchemaErr::BadLinkPayload {
                locale: locale@,
                category: category@,
            },
            SchemaError::MixedType { locale, category, key } => GSchemaErr::MixedType {
                locale: locale@,
                category: category@,
                key: key@,
            },
            SchemaError::UnresolvedLink { locale, category } => GSchemaErr::UnresolvedLink {
                locale: locale@,
                category: category@,
            },
            SchemaError::LinkCycle { locale, category } => GSchemaErr::LinkCycle {
                locale: locale@,
                category: category@,
            },
        }
    }
}

/// The unifier's output: per-locale category tables, the canonical field
/// metadata, and each locale's normalized name, all in sorted key order.
#[derive(Debug, PartialEq)]
pub struct CodeGenerator {
    by_language: Vec<(String, Vec<(String, Category)>)>,
    field_metadata: Vec<(String, Vec<(String, Meta)>)>,
    normalized_langs: Vec<(String, String)>,
}

impl DeepView for CodeGenerator {
    type V = GGen;

    closed spec fn deep_view(&self) -> GGen {
        GGen {
            by_language: self.by_language.deep_view(),
            field_metadata: self.field_metadata.deep_view(),
            normalized_langs: self.normalized_langs.deep_view(),
        }
    }
}

// ---------------------------------------------------------------------------
// Small executable helpers
// ---------------------------------------------------------------------------

/// Is the string exactly these characters?
pub(crate) fn string_eq_lit(s: &String, lit: &Vec<char>) -> (r: bool)
    ensures
        r == (s@ == lit@),
{
    let cs = to_chars(s.as_str());
    let n = cs.len();
    if n != lit.len() {
        return false;
    }
    let mut i: usize = 0;
    while i < n
        invariant
            i <= n,
            n == cs@.len() == lit@.len(),
            cs@ == s@,
            forall|k: int| 0 <= k < i ==> cs@[k] == lit@[k],
        decreases n - i,
    {
        if cs[i] != lit[i] {
            return false;
        }
        i = i + 1;
    }
    proof {
        assert(s@ =~= lit@);
    }
    true
}

/// The locale name with `@` replaced by `_`.
fn norm_at_exec(s: &str) -> (r: String)
    ensures
        r@ == norm_at(s@),
{
    let cs = to_chars(s);
    let n = cs.len();
    let mut out: Vec<char> = Vec::new();
    let mut i: usize = 0;
    while i < n
        invariant
            i <= n,
            n == cs@.len(),
            cs@ == s@,
            out@.len() == i,
            forall|k: int| 0 <= k < i ==> out@[k] == at_map()(cs@[k]),
        decreases n - i,
    {
        let c = cs[i];
        if c == '@' {
            out.push('_');
        } else {
            out.push(c);
        }
        i = i + 1;
    }
    proof {
        assert(out@ =~= s@.map_values(at_map()));
    }
    string_of(&out)
}

/// One replacement pass: every occurrence of `pat` becomes `to`.
pub(crate) fn repl_pass(v: &Vec<char>, pat: &Vec<char>, to: &Vec<char>) -> (r: Vec<char>)
    requires
        pat@.len() > 0,
    ensures
        r@ == repl_all(v@, pat@, to@),
{
    let n = v.len();
    let plen = pat.len();
    let mut out: Vec<char> = Vec::new();
    let mut i: usize = 0;
    proof {
        assert(v@.skip(0) =~= v@);
        assert(out@ + repl_all(v@.skip(0), pat@, to@) =~= repl_all(v@, pat@, to@));
    }
    while i < n
        invariant
            i <= n,
            n == v@.len(),
            plen == pat@.len(),
            0 < plen,
            out@ + repl_all(v@.skip(i as int), pat@, to@) == repl_all(v@, pat@, to@),
        decreases n - i,
    {
        let ghost rest = v@.skip(i as int);
        if crate::parser::has_lit(v, i, pat) {
            proof {
                assert(rest.subrange(0, plen as int) =~= v@.subrange(i as int, i + plen));
                assert(rest.skip(plen as int) =~= v@.skip(i + plen));
            }
            let tn = to.len();
            let mut j: usize = 0;
            let ghost out_before = out@;
            while j < tn
                invariant
                    j <= tn,
                    tn == to@.len(),
                    out@ == out_before + to@.subrange(0, j as int),
                decreases tn - j,
            {
                out.push(to[j]);
                proof {
                    assert(out@ =~= out_before + to@.subrange(0, j + 1));
                }
                j = j + 1;
            }
            proof {
                assert(to@.subrange(0, tn as int) =~= to@);
                assert((out_before + to@) + repl_all(v@.skip(i + plen), pat@, to@)
                    =~= out_before + (to@ + repl_all(v@.skip(i + plen), pat@, to@)));
            }
            i = i + plen;
        } else {
            proof {
                assert(!(0 < pat@.len() <= rest.len() && rest.subrange(0, plen as int) == pat@))
                    by {
                    if plen <= rest.len() {
                        assert(rest.subrange(0, plen as int) =~= v@.subrange(i as int, i + plen));
                    }
                }
                assert(rest[0] == v@[i as int]);
                assert(rest.skip(1) =~= v@.skip(i + 1));
                assert((out@ + seq![v@[i as int]]) + repl_all(v@.skip(i + 1), pat@, to@)
                    =~= out@ + (seq![v@[i as int]] + repl_all(v@.skip(i + 1), pat@, to@)));
            }
            out.push(v[i]);
            i = i + 1;
        }
    }
    proof {
        assert(v@.skip(n as int) =~= Seq::<char>::empty());
        assert(out@ + Seq::<char>::empty() =~= out@);
    }
    out
}

/// ASCII upper-casing of every character.
fn upper_pass(v: &Vec<char>) -> (r: Vec<char>)
    ensures
        r@ == v@.map_values(upper_map()),
{
    let n = v.len();
    let mut out: Vec<char> = Vec::new();
    let mut i: usize = 0;
    while i < n
        invariant
            i <= n,
            n == v@.len(),
            out@.len() == i,
            forall|k: int| 0 <= k < i ==> out@[k] == upper_map()(v@[k]),
        decreases n - i,
    {
        let c = v[i];
        let u = c as u32;
        if 97 <= u && u <= 122 {
            match char_from_u32(u - 32) {
                Some(c2) => {
                    out.push(c2);
                },
                None => {
                    proof {
                        assert(false);
                    }
                    out.push(c);
                },
            }
        } else {
            out.push(c);
        }
        i = i + 1;
    }
    proof {
        assert(out@ =~= v@.map_values(upper_map()));
    }
    out
}

/// The canonical form of a field key.
fn norm_key_exec(s: &str) -> (r: String)
    ensures
        r@ == norm_key(s@),
{
    let v0 = to_chars(s);
    let p1: Vec<char> = vec!['\''];
    let e0: Vec<char> = Vec::new();
    let p2: Vec<char> = vec!['"'];
    let p3: Vec<char> = vec!['-'];
    let t3: Vec<char> = vec!['_'];
    let p4: Vec<char> = vec!['='];
    let t4: Vec<char> = vec!['e', 'q'];
    let p5: Vec<char> = vec!['<'];
    let t5: Vec<char> = vec!['l', 't'];
    let p6: Vec<char> = vec!['.', '.'];
    let t6: Vec<char> = vec!['d', 'o', 't', 'd', 'o', 't'];
    let p7: Vec<char> = vec!['2'];
    let t7: Vec<char> = vec!['t', 'w', 'o'];
    proof {
        assert(p1@ =~= seq!['\'']);
        assert(e0@ =~= Seq::<char>::empty());
        assert(p2@ =~= seq!['"']);
        assert(p3@ =~= seq!['-']);
        assert(t3@ =~= seq!['_']);
        assert(p4@ =~= seq!['=']);
        assert(t4@ =~= seq!['e', 'q']);
        assert(p5@ =~= seq!['<']);
        assert(t5@ =~= seq!['l', 't']);
        assert(p6@ =~= seq!['.', '.']);
        assert(t6@ =~= seq!['d', 'o', 't', 'd', 'o', 't']);
        assert(p7@ =~= seq!['2']);
        assert(t7@ =~= seq!['t', 'w', 'o']);
    }
    let v1 = repl_pass(&v0, &p1, &e0);
    let v2 = repl_pass(&v1, &p2, &e0);
    let v3 = repl_pass(&v2, &p3, &t3);
    let v4 = repl_pass(&v3, &p4, &t4);
    let v5 = repl_pass(&v4, &p5, &t5);
    let v6 = repl_pass(&v5, &p6, &t6);
    let v7 = repl_pass(&v6, &p7, &t7);
    let v8 = upper_pass(&v7);
    string_of(&v8)
}

// ---------------------------------------------------------------------------
// Classification
// ---------------------------------------------------------------------------

fn run_uniform(r: &Vec<PValue>, t: u8) -> (b: bool)
    ensures
        b == run_tags_are(r.deep_view(), t),
{
    let n = r.len();
    let mut i: usize = 0;
    while i < n
        invariant
            i <= n,
            n == r@.len(),
            forall|k: int| 0 <= k < i ==> crate::parser::spec_type_tag(r.deep_view()[k]) == t,
        decreases n - i,
    {
        if r[i].type_tag() != t {
            proof {
                assert(r.deep_view()[i as int] == r@[i as int].deep_view());
            }
            return false;
        }
        i = i + 1;
    }
    true
}

fn runs_uniform(rs: &Vec<Vec<PValue>>, t: u8) -> (b: bool)
    ensures
        b == runs_tags_are(rs.deep_view(), t),
{
    let n = rs.len();
    let mut i: usize = 0;
    while i < n
        invariant
            i <= n,
            n == rs@.len(),
            forall|k: int| 0 <= k < i ==> run_tags_are(#[trigger] rs.deep_view()[k], t),
        decreases n - i,
    {
        if !run_uniform(&rs[i], t) {
            proof {
                assert(rs.deep_view()[i as int] == rs@[i as int].deep_view());
            }
            return false;
        }
        i = i + 1;
    }
    true
}

/// Keeps the non-empty runs, in order.
fn filter_nonempty(mut rs: Vec<Vec<PValue>>) -> (r: Vec<Vec<PValue>>)
    ensures
        r.deep_view() == nonempty_runs(rs.deep_view()),
{
    let ghost orig = rs.deep_view();
    let mut out: Vec<Vec<PValue>> = Vec::new();
    proof {
        assert(out.deep_view() + nonempty_runs(rs.deep_view()) =~= nonempty_runs(orig));
    }
    while rs.len() > 0
        invariant
            out.deep_view() + nonempty_runs(rs.deep_view()) == nonempty_runs(orig),
        decreases rs.len(),
    {
        let ghost pre = rs.deep_view();
        let x = rs.remove(0);
        proof {
            assert(rs.deep_view() =~= pre.drop_first());
        }
        if x.len() > 0 {
            let ghost gx = x.deep_view();
            out.push(x);
            proof {
                assert(out.deep_view().drop_last() + seq![gx] =~= out.deep_view());
                assert(out.deep_view().drop_last() + (seq![gx] + nonempty_runs(pre.drop_first()))
                    =~= out.deep_view() + nonempty_runs(pre.drop_first()));
            }
        }
    }
    proof {
        assert(nonempty_runs(rs.deep_view()) == Seq::<Seq<crate::grammar::GVal>>::empty());
        assert(out.deep_view() + Seq::<Seq<crate::grammar::GVal>>::empty() =~= out.deep_view());
    }
    out
}

/// Classifies one key's runs and updates its metadata, or reports a mixed
/// type.
fn classify_exec(rs: Vec<Vec<PValue>>, m: Meta) -> (r: Option<(Value, Meta)>)
    ensures
        match r {
            Some((fv, m1)) => classify_group(rs.deep_view(), m) == Some((fv.deep_view(), m1)),
            None => classify_group(rs.deep_view(), m) is None,
        },
{
    let ghost grs = rs.deep_view();
    let mut ne = filter_nonempty(rs);
    proof {
        crate::schema::lemma_nonempty_runs(grs);
    }
    if ne.len() == 0 {
        let mut m1 = m;
        m1.make_optional();
        return Some((Value::Empty, m1));
    }
    proof {
        assert(ne.deep_view()[0] == ne@[0].deep_view());
        assert(ne@[0].deep_view().len() == ne@[0]@.len());
        assert(ne@[0]@.len() > 0);
    }
    let t = ne[0][0].type_tag();
    proof {
        assert(ne.deep_view()[0][0] == ne@[0]@[0].deep_view());
    }
    if ne.len() == 1 && ne[0].len() == 1 {
        let mut r0 = ne.remove(0);
        let v0 = r0.remove(0);
        let mut m1 = m;
        if t == 1 {
            m1.mark_int();
        } else {
            m1.mark_str();
        }
        return Some((Value::Literal(v0), m1));
    }
    if ne.len() == 1 {
        if run_uniform(&ne[0], t) {
            proof {
                assert(ne.deep_view()[0] == ne@[0].deep_view());
            }
            let r0 = ne.remove(0);
            let mut m1 = m;
            m1.mark_array();
            if t == 1 {
                m1.mark_int();
            } else {
                m1.mark_str();
            }
            return Some((Value::Array(r0), m1));
        } else {
            proof {
                assert(ne.deep_view()[0] == ne@[0].deep_view());
            }
            return None;
        }
    }
    if runs_uniform(&ne, t) {
        let mut m1 = m;
        m1.mark_array_2d();
        if t == 1 {
            m1.mark_int();
        } else {
            m1.mark_str();
        }
        Some((Value::Array2d(ne), m1))
    } else {
        None
    }
}

/// Groups a category's runs by raw key: keys sorted, runs in source order.
fn group_runs_exec(mut runs: Vec<(String, Vec<PValue>)>) -> (r: Vec<(String, Vec<Vec<PValue>>)>)
    ensures
        r.deep_view() == group_runs(runs.deep_view()),
        al_sorted(r.deep_view()),
    decreases runs@.len(),
{
    if runs.len() == 0 {
        let r: Vec<(String, Vec<Vec<PValue>>)> = Vec::new();
        proof {
            assert(r.deep_view() =~= group_runs(runs.deep_view()));
            assert(runs.deep_view().len() == 0);
        }
        return r;
    }
    let ghost pre = runs.deep_view();
    let last = runs.pop();
    match last {
        None => {
            proof {
                assert(false);
            }
            Vec::new()
        },
        Some((k, vs)) => {
            proof {
                assert(runs.deep_view() =~= pre.drop_last());
                assert(pre.last() == (k@, vs.deep_view()));
            }
            let mut g = group_runs_exec(runs);
            let ghost gg = g.deep_view();
            let ghost gvs = vs.deep_view();
            match al_find(&g, k.as_str()) {
                Some(j) => {
                    let (k0, mut prior) = g.remove(j);
                    proof {
                        assert(gg[j as int] == (k0@, prior.deep_view()));
                    }
                    let ghost gprior = prior.deep_view();
                    prior.push(vs);
                    proof {
                        assert(prior.deep_view() =~= gprior.push(gvs));
                    }
                    g.insert(j, (k0, prior));
                    proof {
                        crate::alist::lemma_al_remove_insert(gg, j as int, gprior.push(gvs));
                        assert(g.deep_view() =~= gg.update(j as int, (k@, gprior.push(gvs))));
                        assert(al_get(gg, k@) == Some(gprior));
                    }
                    g
                },
                None => {
                    let mut single: Vec<Vec<PValue>> = Vec::new();
                    single.push(vs);
                    proof {
                        assert(single.deep_view() =~= Seq::<Seq<crate::grammar::GVal>>::empty().push(gvs));
                    }
                    al_set(&mut g, k, single);
                    g
                },
            }
        },
    }
}

// ---------------------------------------------------------------------------
// Pass 1: folding the locales
// ---------------------------------------------------------------------------

/// Is this category name one the unifier leaves out?
fn is_skipped_exec(name: &String) -> (r: bool)
    ensures
        r == is_skipped_category(name@),
{
    let l1: Vec<char> = vec!['L', 'C', '_', 'C', 'O', 'L', 'L', 'A', 'T', 'E'];
    let l2: Vec<char> = vec!['L', 'C', '_', 'C', 'T', 'Y', 'P', 'E'];
    let l3: Vec<char> = vec!['L', 'C', '_', 'M', 'E', 'A', 'S', 'U', 'R', 'E', 'M', 'E', 'N', 'T'];
    let l4: Vec<char> = vec!['L', 'C', '_', 'P', 'A', 'P', 'E', 'R'];
    let l5: Vec<char> = vec!['L', 'C', '_', 'N', 'A', 'M', 'E'];
    proof {
        assert(l1@ =~= seq!['L', 'C', '_', 'C', 'O', 'L', 'L', 'A', 'T', 'E']);
        assert(l2@ =~= seq!['L', 'C', '_', 'C', 'T', 'Y', 'P', 'E']);
        assert(l3@ =~= seq!['L', 'C', '_', 'M', 'E', 'A', 'S', 'U', 'R', 'E', 'M', 'E', 'N', 'T']);
        assert(l4@ =~= seq!['L', 'C', '_', 'P', 'A', 'P', 'E', 'R']);
        assert(l5@ =~= seq!['L', 'C', '_', 'N', 'A', 'M', 'E']);
    }
    string_eq_lit(name, &l1) || string_eq_lit(name, &l2) || string_eq_lit(name, &l3)
        || string_eq_lit(name, &l4) || string_eq_lit(name, &l5)
}

/// Does the list hold a string with exactly this content?
fn list_contains(l: &Vec<String>, t: &String) -> (r: bool)
    ensures
        r == exists|i: int| 0 <= i < l@.len() && #[trigger] l@[i]@ == t@,
{
    let n = l.len();
    let mut i: usize = 0;
    while i < n
        invariant
            i <= n,
            n == l@.len(),
            forall|k: int| 0 <= k < i ==> #[trigger] l@[k]@ != t@,
        decreases n - i,
    {
        if l[i].eq(t) {
            return true;
        }
        i = i + 1;
    }
    false
}

/// One key group folded into the field table and the category metadata.
fn fold_groups_exec(
    lang: &String,
    cat: &String,
    mut gs: Vec<(String, Vec<Vec<PValue>>)>,
    mut fields: Vec<(String, Value)>,
    mut cmeta: Vec<(String, Meta)>,
) -> (r: Result<(Vec<(String, Value)>, Vec<(String, Meta)>), SchemaError>)
    requires
        al_sorted(fields.deep_view()),
        al_sorted(cmeta.deep_view()),
    ensures
        match r {
            Ok((f, cm)) => fold_groups(
                lang@,
                cat@,
                gs.deep_view(),
                fields.deep_view(),
                cmeta.deep_view(),
            ) == Ok::<_, GSchemaErr>((f.deep_view(), cm.deep_view())) && al_sorted(f.deep_view())
                && al_sorted(cm.deep_view()),
            Err(e) => fold_groups(lang@, cat@, gs.deep_view(), fields.deep_view(), cmeta.deep_view())
                == Err::<(Seq<(Seq<char>, GFVal)>, Seq<(Seq<char>, Meta)>), _>(e.deep_view()),
        },
    decreases gs@.len(),
{
    if gs.len() == 0 {
        return Ok((fields, cmeta));
    }
    let ghost pre = gs.deep_view();
    let (rk, rs) = gs.remove(0);
    proof {
        assert(gs.deep_view() =~= pre.drop_first());
        assert(pre[0] == (rk@, rs.deep_view()));
    }
    let nk = norm_key_exec(rk.as_str());
    let m0 = match al_find(&cmeta, nk.as_str()) {
        Some(j) => {
            proof {
                assert(cmeta.deep_view()[j as int] == (cmeta@[j as int].0@, cmeta@[j as int].1));
            }
            cmeta[j].1
        },
        None => Meta::new(),
    };
    match classify_exec(rs, m0) {
        None => Err(
            SchemaError::MixedType { locale: lang.clone(), category: cat.clone(), key: rk },
        ),
        Some((fv, m1)) => {
            al_set(&mut fields, nk.clone(), fv);
            al_set(&mut cmeta, nk, m1);
            fold_groups_exec(lang, cat, gs, fields, cmeta)
        },
    }
}

/// One locale's categories folded into the running state.
#[verifier::rlimit(100)]
fn fold_objects_exec(
    lang: &String,
    mut objs: Vec<Object>,
    mut cats: Vec<(String, Category)>,
    mut meta: Vec<(String, Vec<(String, Meta)>)>,
    knowns: &Vec<String>,
    Ghost(known): Ghost<Set<Seq<char>>>,
) -> (r: Result<(Vec<(String, Category)>, Vec<(String, Vec<(String, Meta)>)>), SchemaError>)
    requires
        cats_wf(cats.deep_view()),
        mt_wf(meta.deep_view()),
        forall|i: int| 0 <= i < knowns@.len() ==> known.contains(#[trigger] knowns@[i]@),
        forall|n: Seq<char>| known.contains(n) ==> exists|i: int|
            0 <= i < knowns@.len() && #[trigger] knowns@[i]@ == n,
    ensures
        match r {
            Ok((c, m)) => fold_objects(
                lang@,
                objs.deep_view(),
                cats.deep_view(),
                meta.deep_view(),
                known,
            ) == Ok::<_, GSchemaErr>((c.deep_view(), m.deep_view())) && cats_wf(c.deep_view())
                && mt_wf(m.deep_view()),
            Err(e) => fold_objects(lang@, objs.deep_view(), cats.deep_view(), meta.deep_view(), known)
                == Err::<(Seq<(Seq<char>, GCat)>, Seq<(Seq<char>, Seq<(Seq<char>, Meta)>)>), _>(
                e.deep_view(),
            ),
        },
    decreases objs@.len(),
{
    if objs.len() == 0 {
        return Ok((cats, meta));
    }
    let ghost pre = objs.deep_view();
    let o = objs.remove(0);
    proof {
        assert(objs.deep_view() =~= pre.drop_first());
        assert(pre[0] == o.deep_view());
    }
    let Object { name, values } = o;
    let ghost gname = name@;
    let ghost gruns = values.deep_view();
    if is_skipped_exec(&name) {
        return fold_objects_exec(lang, objs, cats, meta, knowns, Ghost(known));
    }
    let mut is_link = false;
    if values.len() == 1 {
        let c1: Vec<char> = vec!['c', 'o', 'p', 'y'];
        let c2: Vec<char> = vec!['i', 'n', 'c', 'l', 'u', 'd', 'e'];
        proof {
            assert(c1@ =~= lit_copy());
            assert(c2@ =~= lit_include());
            assert(gruns[0].0 == values@[0].0@);
        }
        is_link = string_eq_lit(&values[0].0, &c1) || string_eq_lit(&values[0].0, &c2);
    }
    proof {
        assert(is_link == is_link_shape(gruns));
    }
    if is_link {
        let mut values = values;
        let (_k0, mut payload) = values.remove(0);
        proof {
            assert(payload.deep_view() == gruns[0].1);
        }
        if payload.len() != 1 {
            return Err(SchemaError::BadLinkPayload { locale: lang.clone(), category: name });
        }
        let pv = payload.remove(0);
        proof {
            assert(pv.deep_view() == gruns[0].1[0]);
        }
        match pv {
            PValue::String(txt) => {
                let target = norm_at_exec(txt.as_str());
                if list_contains(knowns, &target) {
                    let ghost gcats = cats.deep_view();
                    al_set(&mut cats, name.clone(), Category::Link(target, name));
                    proof {
                        crate::alist::lemma_al_insert_values(
                            gcats,
                            gname,
                            cats.deep_view()[0].1,
                        );
                        assert forall|i: int| 0 <= i < cats.deep_view().len() implies cat_wf(
                            #[trigger] cats.deep_view()[i].1,
                        ) by {
                            crate::alist::lemma_al_insert_values(
                                gcats,
                                gname,
                                GCat::Link(norm_at(gruns[0].1[0]->Str_0), gname),
                            );
                        }
                    }
                    fold_objects_exec(lang, objs, cats, meta, knowns, Ghost(known))
                } else {
                    Err(
                        SchemaError::UnknownLocale {
                            locale: lang.clone(),
                            category: name,
                            target,
                        },
                    )
                }
            },
            PValue::Raw(_) => Err(
                SchemaError::BadLinkPayload { locale: lang.clone(), category: name },
            ),
            PValue::Integer(_) => Err(
                SchemaError::BadLinkPayload { locale: lang.clone(), category: name },
            ),
        }
    } else {
        let groups = group_runs_exec(values);
        let empty_fields: Vec<(String, Value)> = Vec::new();
        proof {
            assert(empty_fields.deep_view() =~= Seq::<(Seq<char>, GFVal)>::empty());
        }
        match al_find(&meta, name.as_str()) {
            Some(j) => {
                let ghost gmeta = meta.deep_view();
                let (k0, cm) = meta.remove(j);
                proof {
                    assert(gmeta[j as int] == (k0@, cm.deep_view()));
                    assert(al_sorted(gmeta[j as int].1));
                    assert(al_sorted(cm.deep_view()));
                }
                match fold_groups_exec(lang, &name, groups, empty_fields, cm) {
                    Err(e) => Err(e),
                    Ok((fields, cm1)) => {
                        let ghost gcm1 = cm1.deep_view();
                        meta.insert(j, (k0, cm1));
                        proof {
                            crate::alist::lemma_al_remove_insert(gmeta, j as int, gcm1);
                            assert(meta.deep_view() =~= gmeta.update(j as int, (gname, gcm1)));
                            assert(mt_wf(meta.deep_view())) by {
                                assert forall|i: int| 0 <= i < meta.deep_view().len() implies al_sorted(
                                    #[trigger] meta.deep_view()[i].1,
                                ) by {
                                    if i != j {
                                        assert(meta.deep_view()[i] == gmeta[i]);
                                    }
                                }
                            }
                        }
                        let ghost gcats = cats.deep_view();
                        let ghost gfields = fields.deep_view();
                        al_set(&mut cats, name, Category::Fields(fields));
                        proof {
                            assert forall|i: int| 0 <= i < cats.deep_view().len() implies cat_wf(
                                #[trigger] cats.deep_view()[i].1,
                            ) by {
                                crate::alist::lemma_al_insert_values(
                                    gcats,
                                    gname,
                                    GCat::Fields(gfields),
                                );
                            }
                        }
                        fold_objects_exec(lang, objs, cats, meta, knowns, Ghost(known))
                    },
                }
            },
            None => {
                let empty_cmeta: Vec<(String, Meta)> = Vec::new();
                proof {
                    assert(empty_cmeta.deep_view() =~= Seq::<(Seq<char>, Meta)>::empty());
                }
                match fold_groups_exec(lang, &name, groups, empty_fields, empty_cmeta) {
                    Err(e) => Err(e),
                    Ok((fields, cm1)) => {
                        let ghost gmeta = meta.deep_view();
                        let ghost gcm1 = cm1.deep_view();
                        al_set(&mut meta, name.clone(), cm1);
                        proof {
                            assert(mt_wf(meta.deep_view())) by {
                                assert forall|i: int| 0 <= i < meta.deep_view().len() implies al_sorted(
                                    #[trigger] meta.deep_view()[i].1,
                                ) by {
                                    crate::alist::lemma_al_insert_values(gmeta, gname, gcm1);
                                }
                            }
                        }
                        let ghost gcats = cats.deep_view();
                        let ghost gfields = fields.deep_view();
                        al_set(&mut cats, name, Category::Fields(fields));
                        proof {
                            assert forall|i: int| 0 <= i < cats.deep_view().len() implies cat_wf(
                                #[trigger] cats.deep_view()[i].1,
                            ) by {
                                crate::alist::lemma_al_insert_values(
                                    gcats,
                                    gname,
                                    GCat::Fields(gfields),
                                );
                            }
                        }
                        fold_objects_exec(lang, objs, cats, meta, knowns, Ghost(known))
                    },
                }
            },
        }
    }
}

/// Every locale folded, in input order.
fn fold_locales_exec(
    mut input: Vec<(String, Vec<Object>)>,
    mut bl: Vec<(String, Vec<(String, Category)>)>,
    mut mt: Vec<(String, Vec<(String, Meta)>)>,
    mut nl: Vec<(String, String)>,
    knowns: &Vec<String>,
    Ghost(known): Ghost<Set<Seq<char>>>,
) -> (r: Result<
    (
        Vec<(String, Vec<(String, Category)>)>,
        Vec<(String, Vec<(String, Meta)>)>,
        Vec<(String, String)>,
    ),
    SchemaError,
>)
    requires
        bl_wf(bl.deep_view()),
        mt_wf(mt.deep_view()),
        al_sorted(nl.deep_view()),
        forall|i: int| 0 <= i < knowns@.len() ==> known.contains(#[trigger] knowns@[i]@),
        forall|n: Seq<char>| known.contains(n) ==> exists|i: int|
            0 <= i < knowns@.len() && #[trigger] knowns@[i]@ == n,
    ensures
        match r {
            Ok((b, m, l)) => fold_locales(
                input.deep_view(),
                UState {
                    by_language: bl.deep_view(),
                    field_metadata: mt.deep_view(),
                    normalized_langs: nl.deep_view(),
                },
                known,
            ) == Ok::<_, GSchemaErr>(
                UState {
                    by_language: b.deep_view(),
                    field_metadata: m.deep_view(),
                    normalized_langs: l.deep_view(),
                },
            ) && bl_wf(b.deep_view()) && mt_wf(m.deep_view()) && al_sorted(l.deep_view()),
            Err(e) => fold_locales(
                input.deep_view(),
                UState {
                    by_language: bl.deep_view(),
                    field_metadata: mt.deep_view(),
                    normalized_langs: nl.deep_view(),
                },
                known,
            ) == Err::<UState, _>(e.deep_view()),
        },
    decreases input@.len(),
{
    if input.len() == 0 {
        return Ok((bl, mt, nl));
    }
    let ghost pre = input.deep_view();
    let (lang, objs) = input.remove(0);
    proof {
        assert(input.deep_view() =~= pre.drop_first());
        assert(pre[0] == (lang@, objs.deep_view()));
    }
    let empty_cats: Vec<(String, Category)> = Vec::new();
    proof {
        assert(empty_cats.deep_view() =~= Seq::<(Seq<char>, GCat)>::empty());
    }
    match fold_objects_exec(&lang, objs, empty_cats, mt, knowns, Ghost(known)) {
        Err(e) => Err(e),
        Ok((cats, mt1)) => {
            let ghost gbl = bl.deep_view();
            let ghost gcats = cats.deep_view();
            let norm = norm_at_exec(lang.as_str());
            al_set(&mut nl, lang.clone(), norm);
            al_set(&mut bl, lang, cats);
            proof {
                assert forall|i: int| 0 <= i < bl.deep_view().len() implies cats_wf(
                    #[trigger] bl.deep_view()[i].1,
                ) by {
                    crate::alist::lemma_al_insert_values(gbl, pre[0].0, gcats);
                }
            }
            fold_locales_exec(input, bl, mt1, nl, knowns, Ghost(known))
        },
    }
}

// ---------------------------------------------------------------------------
// Pass 2: filling every locale to the canonical shape
// ---------------------------------------------------------------------------

/// Inserts an explicit absence for every canonical field the table lacks,
/// marking those fields optional.
fn fill_fields_exec(fields: Vec<(String, Value)>, metas: &mut Vec<(String, Meta)>) -> (r: Vec<
    (String, Value),
>)
    requires
        al_sorted(fields.deep_view()),
        al_sorted(old(metas).deep_view()),
    ensures
        (r.deep_view(), final(metas).deep_view()) == fill_fields(
            fields.deep_view(),
            old(metas).deep_view(),
            0,
        ),
        al_sorted(r.deep_view()),
        al_sorted(final(metas).deep_view()),
{
    let ghost f0 = fields.deep_view();
    let ghost m0 = old(metas).deep_view();
    let mut fields = fields;
    let mut j: usize = 0;
    while j < metas.len()
        invariant
            j <= metas@.len(),
            al_sorted(fields.deep_view()),
            al_sorted(metas.deep_view()),
            fill_fields(f0, m0, 0) == fill_fields(fields.deep_view(), metas.deep_view(), j as int),
        decreases metas@.len() - j,
    {
        let ghost gm = metas.deep_view();
        let ghost gf = fields.deep_view();
        let found = al_find(&fields, metas[j].0.as_str());
        proof {
            assert(gm[j as int] == (metas@[j as int].0@, metas@[j as int].1));
        }
        match found {
            Some(_) => {
                j = j + 1;
            },
            None => {
                let (k0, m) = metas.remove(j);
                let mut m2 = m;
                m2.make_optional();
                al_set(&mut fields, k0.clone(), Value::Empty);
                metas.insert(j, (k0, m2));
                proof {
                    crate::alist::lemma_al_remove_insert(
                        gm,
                        j as int,
                        crate::schema::spec_make_optional(m),
                    );
                    assert(metas.deep_view() =~= gm.update(
                        j as int,
                        (gm[j as int].0, crate::schema::spec_make_optional(m)),
                    ));
                }
                j = j + 1;
            },
        }
    }
    fields
}

/// One locale's categories filled against the whole metadata table.
fn fill_lang_exec(
    cats: Vec<(String, Category)>,
    mt: &mut Vec<(String, Vec<(String, Meta)>)>,
) -> (r: Vec<(String, Category)>)
    requires
        cats_wf(cats.deep_view()),
        mt_wf(old(mt).deep_view()),
    ensures
        (r.deep_view(), final(mt).deep_view()) == fill_lang(
            cats.deep_view(),
            old(mt).deep_view(),
            0,
        ),
        cats_wf(r.deep_view()),
        mt_wf(final(mt).deep_view()),
{
    let ghost c0 = cats.deep_view();
    let ghost m0 = old(mt).deep_view();
    let mut cats = cats;
    let mut i: usize = 0;
    while i < mt.len()
        invariant
            i <= mt@.len(),
            cats_wf(cats.deep_view()),
            mt_wf(mt.deep_view()),
            fill_lang(c0, m0, 0) == fill_lang(cats.deep_view(), mt.deep_view(), i as int),
        decreases mt@.len() - i,
    {
        let ghost gmt = mt.deep_view();
        let ghost gcats = cats.deep_view();
        let (catname, mut metas) = mt.remove(i);
        proof {
            assert(gmt[i as int] == (catname@, metas.deep_view()));
            assert(al_sorted(gmt[i as int].1));
        }
        let found = al_find(&cats, catname.as_str());
        match found {
            Some(j) => {
                if matches!(cats[j].1, Category::Link(_, _)) {
                    proof {
                        assert(gcats[j as int] == (cats@[j as int].0@, cats@[
                            j as int
                        ].1.deep_view()));
                    }
                    mt.insert(i, (catname, metas));
                    proof {
                        assert(mt.deep_view() =~= gmt);
                    }
                    i = i + 1;
                } else {
                    let (k0, cat) = cats.remove(j);
                    match cat {
                        Category::Fields(f) => {
                            proof {
                                assert(gcats[j as int] == (k0@, GCat::Fields(f.deep_view())));
                                assert(cat_wf(gcats[j as int].1));
                            }
                            let ghost gmetas = metas.deep_view();
                            let f1 = fill_fields_exec(f, &mut metas);
                            let ghost gf1 = f1.deep_view();
                            cats.insert(j, (k0, Category::Fields(f1)));
                            proof {
                                crate::alist::lemma_al_remove_insert(
                                    gcats,
                                    j as int,
                                    GCat::Fields(gf1),
                                );
                                assert(cats.deep_view() =~= gcats.update(
                                    j as int,
                                    (gcats[j as int].0, GCat::Fields(gf1)),
                                ));
                                assert forall|l: int| 0 <= l < cats.deep_view().len() implies cat_wf(
                                    #[trigger] cats.deep_view()[l].1,
                                ) by {
                                    if l != j {
                                        assert(cats.deep_view()[l] == gcats[l]);
                                    }
                                }
                            }
                            mt.insert(i, (catname, metas));
                            proof {
                                crate::alist::lemma_al_remove_insert(
                                    gmt,
                                    i as int,
                                    metas.deep_view(),
                                );
                                assert(mt.deep_view() =~= gmt.update(
                                    i as int,
                                    (gmt[i as int].0, metas.deep_view()),
                                ));
                                assert forall|l: int| 0 <= l < mt.deep_view().len() implies al_sorted(
                                    #[trigger] mt.deep_view()[l].1,
                                ) by {
                                    if l != i {
                                        assert(mt.deep_view()[l] == gmt[l]);
                                    }
                                }
                            }
                            i = i + 1;
                        },
                        Category::Link(a, b) => {
                            proof {
                                assert(gcats[j as int] == (k0@, GCat::Link(a@, b@)));
                                assert(false);
                            }
                            cats.insert(j, (k0, Category::Link(a, b)));
                            mt.insert(i, (catname, metas));
                            i = i + 1;
                        },
                    }
                }
            },
            None => {
                let ef: Vec<(String, Value)> = Vec::new();
                proof {
                    assert(ef.deep_view() =~= Seq::<(Seq<char>, GFVal)>::empty());
                }
                let f1 = fill_fields_exec(ef, &mut metas);
                let ghost gf1 = f1.deep_view();
                al_set(&mut cats, catname.clone(), Category::Fields(f1));
                proof {
                    assert forall|l: int| 0 <= l < cats.deep_view().len() implies cat_wf(
                        #[trigger] cats.deep_view()[l].1,
                    ) by {
                        crate::alist::lemma_al_insert_values(gcats, catname@, GCat::Fields(gf1));
                    }
                }
                mt.insert(i, (catname, metas));
                proof {
                    crate::alist::lemma_al_remove_insert(gmt, i as int, metas.deep_view());
                    assert(mt.deep_view() =~= gmt.update(
                        i as int,
                        (gmt[i as int].0, metas.deep_view()),
                    ));
                    assert forall|l: int| 0 <= l < mt.deep_view().len() implies al_sorted(
                        #[trigger] mt.deep_view()[l].1,
                    ) by {
                        if l != i {
                            assert(mt.deep_view()[l] == gmt[l]);
                        }
                    }
                }
                i = i + 1;
            },
        }
    }
    cats
}

/// Every locale filled, in table order.
fn fill_all_exec(
    bl: &mut Vec<(String, Vec<(String, Category)>)>,
    mt: &mut Vec<(String, Vec<(String, Meta)>)>,
)
    requires
        bl_wf(old(bl).deep_view()),
        mt_wf(old(mt).deep_view()),
    ensures
        (final(bl).deep_view(), final(mt).deep_view()) == fill_all(
            old(bl).deep_view(),
            old(mt).deep_view(),
            0,
        ),
        bl_wf(final(bl).deep_view()),
        mt_wf(final(mt).deep_view()),
{
    let ghost b0 = old(bl).deep_view();
    let ghost m0 = old(mt).deep_view();
    let mut i: usize = 0;
    while i < bl.len()
        invariant
            i <= bl@.len(),
            bl_wf(bl.deep_view()),
            mt_wf(mt.deep_view()),
            fill_all(b0, m0, 0) == fill_all(bl.deep_view(), mt.deep_view(), i as int),
        decreases bl@.len() - i,
    {
        let ghost gbl = bl.deep_view();
        let (lang, cats) = bl.remove(i);
        proof {
            assert(gbl[i as int] == (lang@, cats.deep_view()));
            assert(cats_wf(gbl[i as int].1));
        }
        let cats1 = fill_lang_exec(cats, mt);
        let ghost gcats1 = cats1.deep_view();
        bl.insert(i, (lang, cats1));
        proof {
            crate::alist::lemma_al_remove_insert(gbl, i as int, gcats1);
            assert(bl.deep_view() =~= gbl.update(i as int, (gbl[i as int].0, gcats1)));
            assert forall|l: int| 0 <= l < bl.deep_view().len() implies cats_wf(
                #[trigger] bl.deep_view()[l].1,
            ) by {
                if l != i {
                    assert(bl.deep_view()[l] == gbl[l]);
                }
            }
        }
        i = i + 1;
    }
}

// ---------------------------------------------------------------------------
// Pass 3: every link must resolve
// ---------------------------------------------------------------------------

/// The first locale whose normalized name is `t`.
fn find_norm_exec(bl: &Vec<(String, Vec<(String, Category)>)>, t: &String) -> (r: Option<usize>)
    ensures
        match r {
            Some(i) => i < bl@.len() && find_norm(bl.deep_view(), t@, 0) == Some(i as int),
            None => find_norm(bl.deep_view(), t@, 0) is None,
        },
{
    let n = bl.len();
    let mut i: usize = 0;
    while i < n
        invariant
            i <= n,
            n == bl@.len(),
            find_norm(bl.deep_view(), t@, 0) == find_norm(bl.deep_view(), t@, i as int),
        decreases n - i,
    {
        let norm = norm_at_exec(bl[i].0.as_str());
        proof {
            assert(bl.deep_view()[i as int] == (bl@[i as int].0@, bl@[i as int].1.deep_view()));
        }
        if norm.eq(t) {
            return Some(i);
        }
        i = i + 1;
    }
    None
}

/// Follows a chain of links to a field table.
fn resolve_exec<'a>(
    bl: &'a Vec<(String, Vec<(String, Category)>)>,
    target: &String,
    cat: &String,
    fuel: usize,
) -> (r: Result<&'a Vec<(String, Value)>, bool>)
    ensures
        match r {
            Ok(f) => resolve_link(bl.deep_view(), target@, cat@, fuel as nat) == Ok::<_, bool>(
                f.deep_view(),
            ),
            Err(b) => resolve_link(bl.deep_view(), target@, cat@, fuel as nat) == Err::<
                Seq<(Seq<char>, GFVal)>,
                _,
            >(b),
        },
    decreases fuel,
{
    if fuel == 0 {
        return Err(true);
    }
    match find_norm_exec(bl, target) {
        None => Err(false),
        Some(i) => {
            proof {
                assert(bl.deep_view()[i as int] == (bl@[i as int].0@, bl@[
                    i as int
                ].1.deep_view()));
            }
            match al_find(&bl[i].1, cat.as_str()) {
                None => Err(false),
                Some(j) => {
                    proof {
                        assert(bl@[i as int].1.deep_view()[j as int] == (bl@[i as int].1@[
                            j as int
                        ].0@, bl@[i as int].1@[j as int].1.deep_view()));
                    }
                    match &bl[i].1[j].1 {
                        Category::Fields(f) => Ok(f),
                        Category::Link(t2, _) => resolve_exec(bl, t2, cat, fuel - 1),
                    }
                },
            }
        },
    }
}

/// The first link in one locale that does not resolve.
fn check_lang_links_exec(
    bl: &Vec<(String, Vec<(String, Category)>)>,
    lang: &String,
    cats: &Vec<(String, Category)>,
) -> (r: Option<SchemaError>)
    ensures
        match r {
            Some(e) => check_lang_links(bl.deep_view(), lang@, cats.deep_view(), 0) == Some(
                e.deep_view(),
            ),
            None => check_lang_links(bl.deep_view(), lang@, cats.deep_view(), 0) is None,
        },
{
    let n = cats.len();
    let mut j: usize = 0;
    while j < n
        invariant
            j <= n,
            n == cats@.len(),
            check_lang_links(bl.deep_view(), lang@, cats.deep_view(), 0) == check_lang_links(
                bl.deep_view(),
                lang@,
                cats.deep_view(),
                j as int,
            ),
        decreases n - j,
    {
        proof {
            assert(cats.deep_view()[j as int] == (cats@[j as int].0@, cats@[
                j as int
            ].1.deep_view()));
        }
        match &cats[j].1 {
            Category::Fields(_) => {
                j = j + 1;
            },
            Category::Link(t, _) => {
                match resolve_exec(bl, t, &cats[j].0, bl.len()) {
                    Ok(_) => {
                        j = j + 1;
                    },
                    Err(true) => {
                        return Some(
                            SchemaError::LinkCycle {
                                locale: lang.clone(),
                                category: cats[j].0.clone(),
                            },
                        );
                    },
                    Err(false) => {
                        return Some(
                            SchemaError::UnresolvedLink {
                                locale: lang.clone(),
                                category: cats[j].0.clone(),
                            },
                        );
                    },
                }
            },
        }
    }
    None
}

/// The first link anywhere that does not resolve.
fn check_links_exec(bl: &Vec<(String, Vec<(String, Category)>)>) -> (r: Option<SchemaError>)
    ensures
        match r {
            Some(e) => check_links(bl.deep_view(), 0) == Some(e.deep_view()),
            None => check_links(bl.deep_view(), 0) is None,
        },
{
    let n = bl.len();
    let mut i: usize = 0;
    while i < n
        invariant
            i <= n,
            n == bl@.len(),
            check_links(bl.deep_view(), 0) == check_links(bl.deep_view(), i as int),
        decreases n - i,
    {
        proof {
            assert(bl.deep_view()[i as int] == (bl@[i as int].0@, bl@[i as int].1.deep_view()));
        }
        match check_lang_links_exec(bl, &bl[i].0, &bl[i].1) {
            Some(e) => {
                return Some(e);
            },
            None => {
                i = i + 1;
            },
        }
    }
    None
}

// ---------------------------------------------------------------------------
// The whole unification
// ---------------------------------------------------------------------------

impl CodeGenerator {
    /// Unifies every locale's parsed categories into the canonical schema
    /// and the per-locale filled tables.
    ///
    /// Returns exactly what [`spec_unify`] assigns to the input: the folded,
    /// filled and link-checked tables, or the first fault the fold meets —
    /// an alias naming an unknown locale, an alias with a payload that is
    /// not one quoted string, a key whose runs mix integers and text, or a
    /// link chain that never reaches a field table.
    pub fn new(objects: Vec<(String, Vec<Object>)>) -> (r: Result<CodeGenerator, SchemaError>)
        ensures
            match r {
                Ok(g) => spec_unify(objects.deep_view()) == Ok::<_, GSchemaErr>(g.deep_view()),
                Err(e) => spec_unify(objects.deep_view()) == Err::<GGen, _>(e.deep_view()),
            },
    {
        let ghost input = objects.deep_view();
        let ghost known = known_locales(input);
        let mut knowns: Vec<String> = Vec::new();
        let n = objects.len();
        let mut i: usize = 0;
        while i < n
            invariant
                i <= n,
                n == objects@.len(),
                input == objects.deep_view(),
                knowns@.len() == i,
                forall|k: int| 0 <= k < i ==> #[trigger] knowns@[k]@ == norm_at(input[k].0),
            decreases n - i,
        {
            let nm = norm_at_exec(objects[i].0.as_str());
            proof {
                assert(input[i as int] == (objects@[i as int].0@, objects@[
                    i as int
                ].1.deep_view()));
            }
            knowns.push(nm);
            i = i + 1;
        }
        proof {
            assert forall|k: int| 0 <= k < knowns@.len() implies known.contains(
                #[trigger] knowns@[k]@,
            ) by {
                assert(norm_at(input[k].0) == knowns@[k]@);
            }
            assert forall|m: Seq<char>| known.contains(m) implies exists|k: int|
                0 <= k < knowns@.len() && #[trigger] knowns@[k]@ == m by {
                let w = choose|w: int| 0 <= w < input.len() && norm_at(input[w].0) == m;
                assert(knowns@[w]@ == m);
            }
        }
        let bl0: Vec<(String, Vec<(String, Category)>)> = Vec::new();
        let mt0: Vec<(String, Vec<(String, Meta)>)> = Vec::new();
        let nl0: Vec<(String, String)> = Vec::new();
        proof {
            assert(bl0.deep_view() =~= Seq::<(Seq<char>, Seq<(Seq<char>, GCat)>)>::empty());
            assert(mt0.deep_view() =~= Seq::<(Seq<char>, Seq<(Seq<char>, Meta)>)>::empty());
            assert(nl0.deep_view() =~= Seq::<(Seq<char>, Seq<char>)>::empty());
        }
        match fold_locales_exec(objects, bl0, mt0, nl0, &knowns, Ghost(known)) {
            Err(e) => Err(e),
            Ok((mut bl, mut mt, nl)) => {
                fill_all_exec(&mut bl, &mut mt);
                match check_links_exec(&bl) {
                    Some(e) => Err(e),
                    None => Ok(
                        CodeGenerator {
                            by_language: bl,
                            field_metadata: mt,
                            normalized_langs: nl,
                        },
                    ),
                }
            },
        }
    }
}

impl CodeGenerator {
    /// The category table of one locale, by exact locale name.
    pub fn category(&self, lang: &str, cat: &str) -> (r: Option<&Category>)
        ensures
            ({
                let bl = self.deep_view().by_language;
                match al_get(bl, lang@) {
                    Some(cats) => match al_get(cats, cat@) {
                        Some(gc) => r matches Some(c) && c.deep_view() == gc,
                        None => r is None,
                    },
                    None => r is None,
                }
            }),
    {
        match al_find(&self.by_language, lang) {
            None => None,
            Some(i) => {
                proof {
                    assert(self.by_language.deep_view()[i as int] == (self.by_language@[
                        i as int
                    ].0@, self.by_language@[i as int].1.deep_view()));
                }
                match al_find(&self.by_language[i].1, cat) {
                    None => None,
                    Some(j) => {
                        proof {
                            assert(self.by_language@[i as int].1.deep_view()[j as int]
                                == (self.by_language@[i as int].1@[j as int].0@, self.by_language@[
                                i as int
                            ].1@[j as int].1.deep_view()));
                        }
                        Some(&self.by_language[i].1[j].1)
                    },
                }
            },
        }
    }

    /// The canonical metadata of one field, by category name and normalized
    /// key.
    pub fn meta_of(&self, cat: &str, key: &str) -> (r: Option<Meta>)
        ensures
            ({
                let mt = self.deep_view().field_metadata;
                match al_get(mt, cat@) {
                    Some(metas) => r == al_get(metas, key@),
                    None => r is None,
                }
            }),
    {
        match al_find(&self.field_metadata, cat) {
            None => None,
            Some(i) => {
                proof {
                    assert(self.field_metadata.deep_view()[i as int] == (self.field_metadata@[
                        i as int
                    ].0@, self.field_metadata@[i as int].1.deep_view()));
                }
                match al_find(&self.field_metadata[i].1, key) {
                    None => None,
                    Some(j) => {
                        proof {
                            assert(self.field_metadata@[i as int].1.deep_view()[j as int]
                                == (self.field_metadata@[i as int].1@[j as int].0@,
                            self.field_metadata@[i as int].1@[j as int].1));
                        }
                        Some(self.field_metadata[i].1[j].1)
                    },
                }
            },
        }
    }

    /// The normalized name a locale appears under in a target namespace.
    pub fn normalized(&self, lang: &str) -> (r: Option<&String>)
        ensures
            match r {
                Some(n) => al_get(self.deep_view().normalized_langs, lang@) == Some(n@),
                None => al_get(self.deep_view().normalized_langs, lang@) is None,
            },
    {
        match al_find(&self.normalized_langs, lang) {
            None => None,
            Some(i) => {
                proof {
                    assert(self.normalized_langs.deep_view()[i as int] == (self.normalized_langs@[
                        i as int
                    ].0@, self.normalized_langs@[i as int].1@));
                }
                Some(&self.normalized_langs[i].1)
            },
        }
    }

    /// The field table a link chain ends at, starting from a normalized
    /// locale name; `None` where the chain is missing a step or cycles.
    pub fn resolve_category(&self, target: &str, cat: &str) -> (r: Option<
        &Vec<(String, Value)>,
    >)
        ensures
            ({
                let bl = self.deep_view().by_language;
                match resolve_link(bl, target@, cat@, bl.len() as nat) {
                    Ok(f) => r matches Some(v) && v.deep_view() == f,
                    Err(_) => r is None,
                }
            }),
    {
        let t = String::from_str(target);
        let c = String::from_str(cat);
        match resolve_exec(&self.by_language, &t, &c, self.by_language.len()) {
            Ok(f) => Some(f),
            Err(_) => None,
        }
    }
}

impl CodeGenerator {
    /// Every locale's category table, in sorted locale order.
    pub fn languages(&self) -> (r: &Vec<(String, Vec<(String, Category)>)>)
        ensures
            r.deep_view() == self.deep_view().by_language,
    {
        &self.by_language
    }

    /// The canonical field metadata, in sorted category order.
    pub fn metadata(&self) -> (r: &Vec<(String, Vec<(String, Meta)>)>)
        ensures
            r.deep_view() == self.deep_view().field_metadata,
    {
        &self.field_metadata
    }

    /// Every locale's normalized name, in sorted locale order.
    pub fn normalized_names(&self) -> (r: &Vec<(String, String)>)
        ensures
            r.deep_view() == self.deep_view().normalized_langs,
    {
        &self.normalized_langs
    }
}

/// A value lifted to a canonical arity: a lone scalar becomes a one-element
/// array under `Array`, and a one-row matrix under `Matrix`; an absence
/// stays an absence.
pub open spec fn spec_with_fixed_type(v: GFVal, c: ContainerType) -> GFVal {
    match c {
        ContainerType::Singleton => v,
        ContainerType::Array => match v {
            GFVal::Literal(x) => GFVal::Array(seq![x]),
            other => other,
        },
        ContainerType::Array2D => match v {
            GFVal::Literal(x) => GFVal::Array2d(seq![seq![x]]),
            GFVal::Array(xs) => GFVal::Array2d(seq![xs]),
            other => other,
        },
    }
}

/// Can a value be lifted to this arity?  A wider value never narrows.
pub open spec fn fits_container(v: GFVal, c: ContainerType) -> bool {
    match c {
        ContainerType::Singleton => !(v is Array) && !(v is Array2d),
        ContainerType::Array => !(v is Array2d),
        ContainerType::Array2D => true,
    }
}

impl Value {
    /// Lifts this value to the canonical arity of its field.
    pub fn with_fixed_type(self, meta: &Meta) -> (r: Value)
        requires
            fits_container(self.deep_view(), meta.container_ty),
        ensures
            r.deep_view() == spec_with_fixed_type(self.deep_view(), meta.container_ty),
    {
        match meta.container_ty {
            ContainerType::Singleton => self,
            ContainerType::Array => match self {
                Value::Literal(x) => {
                    let mut xs: Vec<PValue> = Vec::new();
                    let ghost gx = x.deep_view();
                    xs.push(x);
                    proof {
                        assert(xs.deep_view() =~= seq![gx]);
                    }
                    Value::Array(xs)
                },
                other => other,
            },
            ContainerType::Array2D => match self {
                Value::Literal(x) => {
                    let mut xs: Vec<PValue> = Vec::new();
                    let ghost gx = x.deep_view();
                    xs.push(x);
                    let ghost gxs = xs.deep_view();
                    let mut xss: Vec<Vec<PValue>> = Vec::new();
                    xss.push(xs);
                    proof {
                        assert(gxs =~= seq![gx]);
                        assert(xss.deep_view() =~= seq![seq![gx]]);
                    }
                    Value::Array2d(xss)
                },
                Value::Array(xs) => {
                    let ghost gxs = xs.deep_view();
                    let mut xss: Vec<Vec<PValue>> = Vec::new();
                    xss.push(xs);
                    proof {
                        assert(xss.deep_view() =~= seq![gxs]);
                    }
                    Value::Array2d(xss)
                },
                other => other,
            },
        }
    }
}

} // verus!
