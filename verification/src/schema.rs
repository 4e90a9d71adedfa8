//! Schema unification, stated as spec functions.
//!
//! Given every locale's parsed categories, unification builds one canonical
//! field table per category name — scalar type, arity class, optionality —
//! and a per-locale table conforming to that shape, with explicit absence
//! markers where a locale lacks a field.  The functions here define that
//! fold; [`crate::generator`] implements it and is proved to return exactly
//! what [`spec_unify`] says.

use vstd::prelude::*;

use crate::alist::{al_get, al_insert};
use crate::generator::{ContainerType, Meta, Type};
use crate::grammar::GVal;
use crate::parser::spec_type_tag;

verus! {

/// One field's unified value in one locale.
pub ghost enum GFVal {
    Empty,
    Literal(GVal),
    Array(Seq<GVal>),
    Array2d(Seq<Seq<GVal>>),
}

/// One category in one locale: an alias of another locale's same-named
/// category, or a field table sorted by normalized key.
pub ghost enum GCat {
    Link(Seq<char>, Seq<char>),
    Fields(Seq<(Seq<char>, GFVal)>),
}

/// The unifier's whole output.
pub ghost struct GGen {
    pub by_language: Seq<(Seq<char>, Seq<(Seq<char>, GCat)>)>,
    pub field_metadata: Seq<(Seq<char>, Seq<(Seq<char>, Meta)>)>,
    pub normalized_langs: Seq<(Seq<char>, Seq<char>)>,
}

/// Why unification failed.
pub ghost enum GSchemaErr {
    UnknownLocale { locale: Seq<char>, category: Seq<char>, target: Seq<char> },
    BadLinkPayload { locale: Seq<char>, category: Seq<char> },
    MixedType { locale: Seq<char>, category: Seq<char>, key: Seq<char> },
    UnresolvedLink { locale: Seq<char>, category: Seq<char> },
    LinkCycle { locale: Seq<char>, category: Seq<char> },
}

// ---------------------------------------------------------------------------
// Name normalization
// ---------------------------------------------------------------------------

pub open spec fn at_map() -> spec_fn(char) -> char {
    |c: char| if c == '@' {
        '_'
    } else {
        c
    }
}

/// A locale name as it appears in a target namespace: `@` becomes `_`.
pub open spec fn norm_at(s: Seq<char>) -> Seq<char> {
    s.map_values(at_map())
}

/// Every occurrence of `pat` replaced by `to`, scanning left to right
/// without overlap.
pub open spec fn repl_all(s: Seq<char>, pat: Seq<char>, to: Seq<char>) -> Seq<char>
    decreases s.len(),
{
    if s.len() == 0 {
        s
    } else if 0 < pat.len() <= s.len() && s.subrange(0, pat.len() as int) == pat {
        to + repl_all(s.skip(pat.len() as int), pat, to)
    } else {
        seq![s[0]] + repl_all(s.skip(1), pat, to)
    }
}

pub open spec fn upper_char(c: char) -> char {
    if 97 <= c as u32 <= 122 {
        ((c as u32 - 32) as u32) as char
    } else {
        c
    }
}

pub open spec fn upper_map() -> spec_fn(char) -> char {
    |c: char| upper_char(c)
}

/// A field key as it appears in the canonical schema: punctuation mapped to
/// fixed replacement tokens, then upper-cased.
pub open spec fn norm_key(s: Seq<char>) -> Seq<char> {
    let s1 = repl_all(s, seq!['\''], Seq::empty());
    let s2 = repl_all(s1, seq!['"'], Seq::empty());
    let s3 = repl_all(s2, seq!['-'], seq!['_']);
    let s4 = repl_all(s3, seq!['='], seq!['e', 'q']);
    let s5 = repl_all(s4, seq!['<'], seq!['l', 't']);
    let s6 = repl_all(s5, seq!['.', '.'], seq!['d', 'o', 't', 'd', 'o', 't']);
    let s7 = repl_all(s6, seq!['2'], seq!['t', 'w', 'o']);
    s7.map_values(upper_map())
}

// ---------------------------------------------------------------------------
// The widening lattices
// ---------------------------------------------------------------------------

pub open spec fn spec_meta_new() -> Meta {
    Meta { optional: false, container_ty: ContainerType::Singleton, ty: None }
}

/// Type widening: once any locale supplies text, the type is `String` for
/// good.
pub open spec fn spec_mark_str(m: Meta) -> Meta {
    Meta { ty: Some(Type::String), ..m }
}

pub open spec fn spec_mark_int(m: Meta) -> Meta {
    Meta {
        ty: match m.ty {
            Some(Type::String) => Some(Type::String),
            _ => Some(Type::Integer),
        },
        ..m
    }
}

/// Marks the type from a value's tag: textual is `0`, integer is `1`.
pub open spec fn spec_mark_tag(m: Meta, t: u8) -> Meta {
    if t == 1 {
        spec_mark_int(m)
    } else {
        spec_mark_str(m)
    }
}

pub open spec fn spec_into_array(c: ContainerType) -> ContainerType {
    match c {
        ContainerType::Singleton => ContainerType::Array,
        _ => c,
    }
}

pub open spec fn spec_into_array_2d(c: ContainerType) -> ContainerType {
    match c {
        ContainerType::Singleton => ContainerType::Array2D,
        ContainerType::Array => ContainerType::Array2D,
        _ => c,
    }
}

pub open spec fn spec_mark_array(m: Meta) -> Meta {
    Meta { container_ty: spec_into_array(m.container_ty), ..m }
}

pub open spec fn spec_mark_array_2d(m: Meta) -> Meta {
    Meta { container_ty: spec_into_array_2d(m.container_ty), ..m }
}

pub open spec fn spec_make_optional(m: Meta) -> Meta {
    Meta { optional: true, ..m }
}

// ---------------------------------------------------------------------------
// Grouping and classification
// ---------------------------------------------------------------------------

/// The runs of a category grouped by raw key: keys in sorted order, each
/// key's runs in source order.
pub open spec fn group_runs(runs: Seq<(Seq<char>, Seq<GVal>)>) -> Seq<(Seq<char>, Seq<Seq<GVal>>)>
    decreases runs.len(),
{
    if runs.len() == 0 {
        Seq::empty()
    } else {
        let g = group_runs(runs.drop_last());
        let (k, vs) = runs.last();
        let prior = match al_get(g, k) {
            Some(rs) => rs,
            None => Seq::empty(),
        };
        al_insert(g, k, prior.push(vs))
    }
}

pub open spec fn nonempty_runs(rs: Seq<Seq<GVal>>) -> Seq<Seq<GVal>>
    decreases rs.len(),
{
    if rs.len() == 0 {
        Seq::empty()
    } else if rs[0].len() > 0 {
        seq![rs[0]] + nonempty_runs(rs.drop_first())
    } else {
        nonempty_runs(rs.drop_first())
    }
}

pub open spec fn run_tags_are(r: Seq<GVal>, t: u8) -> bool {
    forall|i: int| 0 <= i < r.len() ==> spec_type_tag(r[i]) == t
}

pub open spec fn runs_tags_are(rs: Seq<Seq<GVal>>, t: u8) -> bool {
    forall|i: int| 0 <= i < rs.len() ==> run_tags_are(rs[i], t)
}

/// The classification of one key's runs: the locale's own value for the
/// field and the meta update, or a mixed-type failure.
pub open spec fn classify_group(rs: Seq<Seq<GVal>>, m: Meta) -> Option<(GFVal, Meta)> {
    let ne = nonempty_runs(rs);
    if ne.len() == 0 {
        Some((GFVal::Empty, spec_make_optional(m)))
    } else {
        let t = spec_type_tag(ne[0][0]);
        if ne.len() == 1 && ne[0].len() == 1 {
            Some((GFVal::Literal(ne[0][0]), spec_mark_tag(m, t)))
        } else if ne.len() == 1 && run_tags_are(ne[0], t) {
            Some((GFVal::Array(ne[0]), spec_mark_tag(spec_mark_array(m), t)))
        } else if runs_tags_are(ne, t) {
            Some((GFVal::Array2d(ne), spec_mark_tag(spec_mark_array_2d(m), t)))
        } else {
            None
        }
    }
}

// ---------------------------------------------------------------------------
// Link classification
// ---------------------------------------------------------------------------

pub open spec fn lit_copy() -> Seq<char> {
    seq!['c', 'o', 'p', 'y']
}

pub open spec fn lit_include() -> Seq<char> {
    seq!['i', 'n', 'c', 'l', 'u', 'd', 'e']
}

/// A category whose whole content is one `copy`/`include` run is a link.
pub open spec fn is_link_shape(runs: Seq<(Seq<char>, Seq<GVal>)>) -> bool {
    runs.len() == 1 && (runs[0].0 == lit_copy() || runs[0].0 == lit_include())
}

/// Categories the unifier leaves out altogether.
pub open spec fn is_skipped_category(name: Seq<char>) -> bool {
    ||| name == seq!['L', 'C', '_', 'C', 'O', 'L', 'L', 'A', 'T', 'E']
    ||| name == seq!['L', 'C', '_', 'C', 'T', 'Y', 'P', 'E']
    ||| name == seq!['L', 'C', '_', 'M', 'E', 'A', 'S', 'U', 'R', 'E', 'M', 'E', 'N', 'T']
    ||| name == seq!['L', 'C', '_', 'P', 'A', 'P', 'E', 'R']
    ||| name == seq!['L', 'C', '_', 'N', 'A', 'M', 'E']
}

/// The normalized names of the locales in the input set.
pub open spec fn known_locales(input: Seq<(Seq<char>, Seq<GObjPair>)>) -> Set<Seq<char>> {
    Set::new(|n: Seq<char>| exists|i: int| 0 <= i < input.len() && norm_at(input[i].0) == n)
}

pub type GObjPair = crate::grammar::GObj;

// ---------------------------------------------------------------------------
// Pass 1: fold every locale's categories
// ---------------------------------------------------------------------------

/// The state the first pass threads along.
pub ghost struct UState {
    pub by_language: Seq<(Seq<char>, Seq<(Seq<char>, GCat)>)>,
    pub field_metadata: Seq<(Seq<char>, Seq<(Seq<char>, Meta)>)>,
    pub normalized_langs: Seq<(Seq<char>, Seq<char>)>,
}

/// One key group folded into a locale's field table and its category's
/// metadata.
pub open spec fn fold_groups(
    lang: Seq<char>,
    cat: Seq<char>,
    gs: Seq<(Seq<char>, Seq<Seq<GVal>>)>,
    fields: Seq<(Seq<char>, GFVal)>,
    cmeta: Seq<(Seq<char>, Meta)>,
) -> Result<(Seq<(Seq<char>, GFVal)>, Seq<(Seq<char>, Meta)>), GSchemaErr>
    decreases gs.len(),
{
    if gs.len() == 0 {
        Ok((fields, cmeta))
    } else {
        let (rk, rs) = gs[0];
        let nk = norm_key(rk);
        let m0 = match al_get(cmeta, nk) {
            Some(m) => m,
            None => spec_meta_new(),
        };
        match classify_group(rs, m0) {
            None => Err(GSchemaErr::MixedType { locale: lang, category: cat, key: rk }),
            Some((fv, m1)) => fold_groups(
                lang,
                cat,
                gs.drop_first(),
                al_insert(fields, nk, fv),
                al_insert(cmeta, nk, m1),
            ),
        }
    }
}

/// One locale's categories folded into the state.
pub open spec fn fold_objects(
    lang: Seq<char>,
    objs: Seq<GObjPair>,
    cats: Seq<(Seq<char>, GCat)>,
    meta: Seq<(Seq<char>, Seq<(Seq<char>, Meta)>)>,
    known: Set<Seq<char>>,
) -> Result<(Seq<(Seq<char>, GCat)>, Seq<(Seq<char>, Seq<(Seq<char>, Meta)>)>), GSchemaErr>
    decreases objs.len(),
{
    if objs.len() == 0 {
        Ok((cats, meta))
    } else {
        let o = objs[0];
        if is_skipped_category(o.name) {
            fold_objects(lang, objs.drop_first(), cats, meta, known)
        } else if is_link_shape(o.runs) {
            let payload = o.runs[0].1;
            if payload.len() == 1 && payload[0] is Str {
                let target = norm_at(payload[0]->Str_0);
                if known.contains(target) {
                    fold_objects(
                        lang,
                        objs.drop_first(),
                        al_insert(cats, o.name, GCat::Link(target, o.name)),
                        meta,
                        known,
                    )
                } else {
                    Err(GSchemaErr::UnknownLocale { locale: lang, category: o.name, target })
                }
            } else {
                Err(GSchemaErr::BadLinkPayload { locale: lang, category: o.name })
            }
        } else {
            let cmeta0 = match al_get(meta, o.name) {
                Some(cm) => cm,
                None => Seq::empty(),
            };
            match fold_groups(lang, o.name, group_runs(o.runs), Seq::empty(), cmeta0) {
                Err(e) => Err(e),
                Ok((fields, cmeta1)) => fold_objects(
                    lang,
                    objs.drop_first(),
                    al_insert(cats, o.name, GCat::Fields(fields)),
                    al_insert(meta, o.name, cmeta1),
                    known,
                ),
            }
        }
    }
}

/// All locales folded, in input order.
pub open spec fn fold_locales(
    input: Seq<(Seq<char>, Seq<GObjPair>)>,
    st: UState,
    known: Set<Seq<char>>,
) -> Result<UState, GSchemaErr>
    decreases input.len(),
{
    if input.len() == 0 {
        Ok(st)
    } else {
        let (lang, objs) = input[0];
        match fold_objects(lang, objs, Seq::empty(), st.field_metadata, known) {
            Err(e) => Err(e),
            Ok((cats, meta1)) => fold_locales(
                input.drop_first(),
                UState {
                    by_language: al_insert(st.by_language, lang, cats),
                    field_metadata: meta1,
                    normalized_langs: al_insert(st.normalized_langs, lang, norm_at(lang)),
                },
                known,
            ),
        }
    }
}

/// Every run in the filtered list is non-empty.
pub proof fn lemma_nonempty_runs(rs: Seq<Seq<GVal>>)
    ensures
        forall|i: int| 0 <= i < nonempty_runs(rs).len() ==> #[trigger] nonempty_runs(rs)[i].len()
            > 0,
    decreases rs.len(),
{
    if rs.len() > 0 {
        lemma_nonempty_runs(rs.drop_first());
        let ne = nonempty_runs(rs);
        assert forall|i: int| 0 <= i < ne.len() implies ne[i].len() > 0 by {
            if rs[0].len() > 0 {
                if i > 0 {
                    assert(ne[i] == nonempty_runs(rs.drop_first())[i - 1]);
                }
            } else {
                assert(ne[i] == nonempty_runs(rs.drop_first())[i]);
            }
        }
    }
}

// ---------------------------------------------------------------------------
// Pass 2: fill every locale's tables to the canonical shape
// ---------------------------------------------------------------------------

/// Fields of one category filled against its canonical metadata: a missing
/// field gets an explicit absence, and its metadata is marked optional.
pub open spec fn fill_fields(
    fields: Seq<(Seq<char>, GFVal)>,
    metas: Seq<(Seq<char>, Meta)>,
    j: int,
) -> (Seq<(Seq<char>, GFVal)>, Seq<(Seq<char>, Meta)>)
    decreases metas.len() - j,
{
    if !(0 <= j < metas.len()) {
        (fields, metas)
    } else {
        let (k, m) = metas[j];
        if al_get(fields, k) is None {
            fill_fields(
                al_insert(fields, k, GFVal::Empty),
                metas.update(j, (k, spec_make_optional(m))),
                j + 1,
            )
        } else {
            fill_fields(fields, metas, j + 1)
        }
    }
}

/// One locale's categories filled against the whole metadata table.
pub open spec fn fill_lang(
    cats: Seq<(Seq<char>, GCat)>,
    mt: Seq<(Seq<char>, Seq<(Seq<char>, Meta)>)>,
    i: int,
) -> (Seq<(Seq<char>, GCat)>, Seq<(Seq<char>, Seq<(Seq<char>, Meta)>)>)
    decreases mt.len() - i,
{
    if !(0 <= i < mt.len()) {
        (cats, mt)
    } else {
        let (catname, metas) = mt[i];
        match al_get(cats, catname) {
            Some(GCat::Link(t, c)) => fill_lang(cats, mt, i + 1),
            Some(GCat::Fields(f)) => {
                let (f1, metas1) = fill_fields(f, metas, 0);
                fill_lang(
                    al_insert(cats, catname, GCat::Fields(f1)),
                    mt.update(i, (catname, metas1)),
                    i + 1,
                )
            },
            None => {
                let (f1, metas1) = fill_fields(Seq::empty(), metas, 0);
                fill_lang(
                    al_insert(cats, catname, GCat::Fields(f1)),
                    mt.update(i, (catname, metas1)),
                    i + 1,
                )
            },
        }
    }
}

/// Every locale filled, in table order.
pub open spec fn fill_all(
    bl: Seq<(Seq<char>, Seq<(Seq<char>, GCat)>)>,
    mt: Seq<(Seq<char>, Seq<(Seq<char>, Meta)>)>,
    i: int,
) -> (Seq<(Seq<char>, Seq<(Seq<char>, GCat)>)>, Seq<(Seq<char>, Seq<(Seq<char>, Meta)>)>)
    decreases bl.len() - i,
{
    if !(0 <= i < bl.len()) {
        (bl, mt)
    } else {
        let (lang, cats) = bl[i];
        let (cats1, mt1) = fill_lang(cats, mt, 0);
        fill_all(bl.update(i, (lang, cats1)), mt1, i + 1)
    }
}

// ---------------------------------------------------------------------------
// Pass 3: every link must resolve
// ---------------------------------------------------------------------------

/// The first locale whose normalized name is `t`.
pub open spec fn find_norm(
    bl: Seq<(Seq<char>, Seq<(Seq<char>, GCat)>)>,
    t: Seq<char>,
    i: int,
) -> Option<int>
    decreases bl.len() - i,
{
    if !(0 <= i < bl.len()) {
        None
    } else if norm_at(bl[i].0) == t {
        Some(i)
    } else {
        find_norm(bl, t, i + 1)
    }
}

/// Follows a chain of links to a field table.  `Err(false)` is a missing
/// target, `Err(true)` a cycle (the chain outran the number of locales).
pub open spec fn resolve_link(
    bl: Seq<(Seq<char>, Seq<(Seq<char>, GCat)>)>,
    target: Seq<char>,
    cat: Seq<char>,
    fuel: nat,
) -> Result<Seq<(Seq<char>, GFVal)>, bool>
    decreases fuel,
{
    if fuel == 0 {
        Err(true)
    } else {
        match find_norm(bl, target, 0) {
            None => Err(false),
            Some(i) => match al_get(bl[i].1, cat) {
                None => Err(false),
                Some(GCat::Fields(f)) => Ok(f),
                Some(GCat::Link(t2, c2)) => resolve_link(bl, t2, cat, (fuel - 1) as nat),
            },
        }
    }
}

/// The first link in one locale that does not resolve.
pub open spec fn check_lang_links(
    bl: Seq<(Seq<char>, Seq<(Seq<char>, GCat)>)>,
    lang: Seq<char>,
    cats: Seq<(Seq<char>, GCat)>,
    j: int,
) -> Option<GSchemaErr>
    decreases cats.len() - j,
{
    if !(0 <= j < cats.len()) {
        None
    } else {
        match cats[j].1 {
            GCat::Fields(_) => check_lang_links(bl, lang, cats, j + 1),
            GCat::Link(t, _) => match resolve_link(bl, t, cats[j].0, bl.len() as nat) {
                Ok(_) => check_lang_links(bl, lang, cats, j + 1),
                Err(true) => Some(GSchemaErr::LinkCycle { locale: lang, category: cats[j].0 }),
                Err(false) => Some(
                    GSchemaErr::UnresolvedLink { locale: lang, category: cats[j].0 },
                ),
            },
        }
    }
}

/// The first link anywhere that does not resolve.
pub open spec fn check_links(bl: Seq<(Seq<char>, Seq<(Seq<char>, GCat)>)>, i: int) -> Option<
    GSchemaErr,
>
    decreases bl.len() - i,
{
    if !(0 <= i < bl.len()) {
        None
    } else {
        match check_lang_links(bl, bl[i].0, bl[i].1, 0) {
            Some(e) => Some(e),
            None => check_links(bl, i + 1),
        }
    }
}

// ---------------------------------------------------------------------------
// The whole unification
// ---------------------------------------------------------------------------

pub open spec fn spec_unify(input: Seq<(Seq<char>, Seq<GObjPair>)>) -> Result<GGen, GSchemaErr> {
    let st0 = UState {
        by_language: Seq::empty(),
        field_metadata: Seq::empty(),
        normalized_langs: Seq::empty(),
    };
    match fold_locales(input, st0, known_locales(input)) {
        Err(e) => Err(e),
        Ok(st) => {
            let (bl, mt) = fill_all(st.by_language, st.field_metadata, 0);
            match check_links(bl, 0) {
                Some(e) => Err(e),
                None => Ok(
                    GGen {
                        by_language: bl,
                        field_metadata: mt,
                        normalized_langs: st.normalized_langs,
                    },
                ),
            }
        },
    }
}

// ---------------------------------------------------------------------------
// Well-formedness: every table in sorted key order
// ---------------------------------------------------------------------------

pub open spec fn cat_wf(c: GCat) -> bool {
    match c {
        GCat::Fields(f) => crate::alist::al_sorted(f),
        GCat::Link(_, _) => true,
    }
}

pub open spec fn cats_wf(cats: Seq<(Seq<char>, GCat)>) -> bool {
    crate::alist::al_sorted(cats) && forall|i: int|
        0 <= i < cats.len() ==> cat_wf(#[trigger] cats[i].1)
}

pub open spec fn bl_wf(bl: Seq<(Seq<char>, Seq<(Seq<char>, GCat)>)>) -> bool {
    crate::alist::al_sorted(bl) && forall|i: int|
        0 <= i < bl.len() ==> cats_wf(#[trigger] bl[i].1)
}

pub open spec fn mt_wf(mt: Seq<(Seq<char>, Seq<(Seq<char>, Meta)>)>) -> bool {
    crate::alist::al_sorted(mt) && forall|i: int|
        0 <= i < mt.len() ==> crate::alist::al_sorted(#[trigger] mt[i].1)
}

} // verus!
