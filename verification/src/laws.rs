//! Laws of the unifier, stated and proved against [`spec_unify`].

use vstd::prelude::*;

use crate::alist::{al_get, al_insert, al_keys, al_sorted, lemma_al_get_insert};
use crate::generator::{ContainerType, Meta, Type};
use crate::grammar::GObj;
use crate::schema::{
    classify_group, fill_all, fill_fields, fill_lang, fold_groups, fold_locales, fold_objects,
    spec_make_optional, spec_meta_new, spec_unify, GCat, GFVal, GGen, GSchemaErr, UState,
};

verus! {

// ---------------------------------------------------------------------------
// Determinism
// ---------------------------------------------------------------------------

/// Unifying the same locale set twice yields the same output, table for
/// table and entry for entry: the result is a function of the input alone,
/// and `CodeGenerator::new` is proved to return exactly it.
pub proof fn lemma_unify_deterministic(input: Seq<(Seq<char>, Seq<GObj>)>, a: GGen, b: GGen)
    requires
        spec_unify(input) == Ok::<GGen, GSchemaErr>(a),
        spec_unify(input) == Ok::<GGen, GSchemaErr>(b),
    ensures
        a == b,
{
}

// ---------------------------------------------------------------------------
// The widening order
// ---------------------------------------------------------------------------

/// The arity lattice: `Scalar` below `Array` below `Matrix`, never backward.
pub open spec fn arity_le(a: ContainerType, b: ContainerType) -> bool {
    match (a, b) {
        (ContainerType::Singleton, _) => true,
        (ContainerType::Array, ContainerType::Array) => true,
        (ContainerType::Array, ContainerType::Array2D) => true,
        (ContainerType::Array2D, ContainerType::Array2D) => true,
        _ => false,
    }
}

/// The type lattice: unset below `Integer` below `String`, never backward.
pub open spec fn ty_le(a: Option<Type>, b: Option<Type>) -> bool {
    match (a, b) {
        (None, _) => true,
        (Some(Type::Integer), Some(Type::Integer)) => true,
        (Some(Type::Integer), Some(Type::String)) => true,
        (Some(Type::String), Some(Type::String)) => true,
        _ => false,
    }
}

/// One field's metadata only ever widens.
pub open spec fn meta_le(a: Meta, b: Meta) -> bool {
    arity_le(a.container_ty, b.container_ty) && ty_le(a.ty, b.ty)
}

/// Every entry of `a` persists in `b`, at least as wide.
pub open spec fn cmeta_grows(a: Seq<(Seq<char>, Meta)>, b: Seq<(Seq<char>, Meta)>) -> bool {
    forall|k: Seq<char>|
        (#[trigger] al_get(a, k)) is Some ==> al_get(b, k) is Some && meta_le(
            al_get(a, k)->0,
            al_get(b, k)->0,
        )
}

/// Every category's table of `a` persists in `b`, entry for entry at least
/// as wide.
pub open spec fn meta_grows(
    a: Seq<(Seq<char>, Seq<(Seq<char>, Meta)>)>,
    b: Seq<(Seq<char>, Seq<(Seq<char>, Meta)>)>,
) -> bool {
    forall|c: Seq<char>|
        (#[trigger] al_get(a, c)) is Some ==> al_get(b, c) is Some && cmeta_grows(
            al_get(a, c)->0,
            al_get(b, c)->0,
        )
}

pub proof fn lemma_meta_grows_transitive(
    a: Seq<(Seq<char>, Seq<(Seq<char>, Meta)>)>,
    b: Seq<(Seq<char>, Seq<(Seq<char>, Meta)>)>,
    c: Seq<(Seq<char>, Seq<(Seq<char>, Meta)>)>,
)
    requires
        meta_grows(a, b),
        meta_grows(b, c),
    ensures
        meta_grows(a, c),
{
    assert forall|x: Seq<char>| (#[trigger] al_get(a, x)) is Some implies al_get(c, x) is Some
        && cmeta_grows(al_get(a, x)->0, al_get(c, x)->0) by {
        assert(al_get(b, x) is Some);
        let ca = al_get(a, x)->0;
        let cb = al_get(b, x)->0;
        let cc = al_get(c, x)->0;
        assert forall|k: Seq<char>| (#[trigger] al_get(ca, k)) is Some implies al_get(cc, k)
            is Some && meta_le(al_get(ca, k)->0, al_get(cc, k)->0) by {
            assert(al_get(cb, k) is Some);
        }
    }
}

/// One classification step only widens a field's metadata.
pub proof fn lemma_classify_widens(rs: Seq<Seq<crate::grammar::GVal>>, m: Meta)
    ensures
        classify_group(rs, m) matches Some((_fv, m1)) ==> meta_le(m, m1),
{
}

// ---------------------------------------------------------------------------
// Growth through the fold
// ---------------------------------------------------------------------------

proof fn lemma_cmeta_grows_refl(a: Seq<(Seq<char>, Meta)>)
    ensures
        cmeta_grows(a, a),
{
}

proof fn lemma_meta_grows_refl(a: Seq<(Seq<char>, Seq<(Seq<char>, Meta)>)>)
    ensures
        meta_grows(a, a),
{
    assert forall|c: Seq<char>| (#[trigger] al_get(a, c)) is Some implies al_get(a, c) is Some
        && cmeta_grows(al_get(a, c)->0, al_get(a, c)->0) by {
        lemma_cmeta_grows_refl(al_get(a, c)->0);
    }
}

/// Folding one category's groups only widens its metadata table.
proof fn lemma_fold_groups_grows(
    lang: Seq<char>,
    cat: Seq<char>,
    gs: Seq<(Seq<char>, Seq<Seq<crate::grammar::GVal>>)>,
    fields: Seq<(Seq<char>, GFVal)>,
    cmeta: Seq<(Seq<char>, Meta)>,
)
    ensures
        fold_groups(lang, cat, gs, fields, cmeta) matches Ok((_f, cm)) ==> cmeta_grows(cmeta, cm),
    decreases gs.len(),
{
    if gs.len() == 0 {
        lemma_cmeta_grows_refl(cmeta);
    } else {
        let (rk, rs) = gs[0];
        let nk = crate::schema::norm_key(rk);
        let m0 = match al_get(cmeta, nk) {
            Some(m) => m,
            None => spec_meta_new(),
        };
        match classify_group(rs, m0) {
            None => {},
            Some((fv, m1)) => {
                let cmeta1 = al_insert(cmeta, nk, m1);
                lemma_fold_groups_grows(lang, cat, gs.drop_first(), al_insert(fields, nk, fv), cmeta1);
                match fold_groups(
                    lang,
                    cat,
                    gs.drop_first(),
                    al_insert(fields, nk, fv),
                    cmeta1,
                ) {
                    Ok((_f2, cm2)) => {
                        assert(cmeta_grows(cmeta, cmeta1)) by {
                            lemma_classify_widens(rs, m0);
                            assert forall|k: Seq<char>| (#[trigger] al_get(cmeta, k)) is Some
                                implies al_get(cmeta1, k) is Some && meta_le(
                                al_get(cmeta, k)->0,
                                al_get(cmeta1, k)->0,
                            ) by {
                                lemma_al_get_insert(cmeta, nk, m1, k);
                            }
                        }
                        assert forall|k: Seq<char>| (#[trigger] al_get(cmeta, k)) is Some
                            implies al_get(cm2, k) is Some && meta_le(
                            al_get(cmeta, k)->0,
                            al_get(cm2, k)->0,
                        ) by {
                            assert(al_get(cmeta1, k) is Some);
                        }
                    },
                    Err(_) => {},
                }
            },
        }
    }
}

/// Folding one locale's categories only widens the whole metadata table.
proof fn lemma_fold_objects_grows(
    lang: Seq<char>,
    objs: Seq<GObj>,
    cats: Seq<(Seq<char>, GCat)>,
    meta: Seq<(Seq<char>, Seq<(Seq<char>, Meta)>)>,
    known: Set<Seq<char>>,
)
    ensures
        fold_objects(lang, objs, cats, meta, known) matches Ok((_c, m2)) ==> meta_grows(meta, m2),
    decreases objs.len(),
{
    if objs.len() == 0 {
        lemma_meta_grows_refl(meta);
    } else {
        let o = objs[0];
        if crate::schema::is_skipped_category(o.name) {
            lemma_fold_objects_grows(lang, objs.drop_first(), cats, meta, known);
        } else if crate::schema::is_link_shape(o.runs) {
            let payload = o.runs[0].1;
            if payload.len() == 1 && payload[0] is Str {
                let target = crate::schema::norm_at(payload[0]->Str_0);
                if known.contains(target) {
                    lemma_fold_objects_grows(
                        lang,
                        objs.drop_first(),
                        al_insert(cats, o.name, GCat::Link(target, o.name)),
                        meta,
                        known,
                    );
                }
            }
        } else {
            let cmeta0 = match al_get(meta, o.name) {
                Some(cm) => cm,
                None => Seq::empty(),
            };
            let groups = crate::schema::group_runs(o.runs);
            lemma_fold_groups_grows(lang, o.name, groups, Seq::empty(), cmeta0);
            match fold_groups(lang, o.name, groups, Seq::empty(), cmeta0) {
                Err(_) => {},
                Ok((fields, cmeta1)) => {
                    let meta1 = al_insert(meta, o.name, cmeta1);
                    lemma_fold_objects_grows(
                        lang,
                        objs.drop_first(),
                        al_insert(cats, o.name, GCat::Fields(fields)),
                        meta1,
                        known,
                    );
                    match fold_objects(
                        lang,
                        objs.drop_first(),
                        al_insert(cats, o.name, GCat::Fields(fields)),
                        meta1,
                        known,
                    ) {
                        Err(_) => {},
                        Ok((_c2, m2)) => {
                            assert(meta_grows(meta, meta1)) by {
                                assert forall|c: Seq<char>| (#[trigger] al_get(meta, c)) is Some
                                    implies al_get(meta1, c) is Some && cmeta_grows(
                                    al_get(meta, c)->0,
                                    al_get(meta1, c)->0,
                                ) by {
                                    lemma_al_get_insert(meta, o.name, cmeta1, c);
                                    if c == o.name {
                                        assert(al_get(meta1, c) == Some(cmeta1));
                                        assert(cmeta_grows(cmeta0, cmeta1));
                                    } else {
                                        lemma_cmeta_grows_refl(al_get(meta, c)->0);
                                    }
                                }
                            }
                            lemma_meta_grows_transitive(meta, meta1, m2);
                        },
                    }
                },
            }
        }
    }
}

/// Folding locales only widens the metadata table.
proof fn lemma_fold_locales_grows(
    input: Seq<(Seq<char>, Seq<GObj>)>,
    st: UState,
    known: Set<Seq<char>>,
)
    ensures
        fold_locales(input, st, known) matches Ok(st2) ==> meta_grows(
            st.field_metadata,
            st2.field_metadata,
        ),
    decreases input.len(),
{
    if input.len() == 0 {
        lemma_meta_grows_refl(st.field_metadata);
    } else {
        let (lang, objs) = input[0];
        lemma_fold_objects_grows(lang, objs, Seq::empty(), st.field_metadata, known);
        match fold_objects(lang, objs, Seq::empty(), st.field_metadata, known) {
            Err(_) => {},
            Ok((cats, meta1)) => {
                let st1 = UState {
                    by_language: al_insert(st.by_language, lang, cats),
                    field_metadata: meta1,
                    normalized_langs: al_insert(
                        st.normalized_langs,
                        lang,
                        crate::schema::norm_at(lang),
                    ),
                };
                lemma_fold_locales_grows(input.drop_first(), st1, known);
                match fold_locales(input.drop_first(), st1, known) {
                    Err(_) => {},
                    Ok(st2) => {
                        lemma_meta_grows_transitive(
                            st.field_metadata,
                            meta1,
                            st2.field_metadata,
                        );
                    },
                }
            },
        }
    }
}

// ---------------------------------------------------------------------------
// The fill pass keeps every arity and type
// ---------------------------------------------------------------------------

/// Two metadata tables with the same keys, arities and types everywhere;
/// only optionality may differ.
pub open spec fn cmeta_same_shape(a: Seq<(Seq<char>, Meta)>, b: Seq<(Seq<char>, Meta)>) -> bool {
    b.len() == a.len() && forall|j: int|
        0 <= j < a.len() ==> (#[trigger] b[j]).0 == a[j].0 && b[j].1.container_ty
            == a[j].1.container_ty && b[j].1.ty == a[j].1.ty
}

pub open spec fn mt_same_shape(
    a: Seq<(Seq<char>, Seq<(Seq<char>, Meta)>)>,
    b: Seq<(Seq<char>, Seq<(Seq<char>, Meta)>)>,
) -> bool {
    b.len() == a.len() && forall|i: int|
        0 <= i < a.len() ==> (#[trigger] b[i]).0 == a[i].0 && cmeta_same_shape(a[i].1, b[i].1)
}

proof fn lemma_fill_fields_shape(
    fields: Seq<(Seq<char>, GFVal)>,
    metas: Seq<(Seq<char>, Meta)>,
    j: int,
)
    ensures
        cmeta_same_shape(metas, fill_fields(fields, metas, j).1),
    decreases metas.len() - j,
{
    if 0 <= j < metas.len() {
        let (k, m) = metas[j];
        if al_get(fields, k) is None {
            lemma_fill_fields_shape(
                al_insert(fields, k, GFVal::Empty),
                metas.update(j, (k, spec_make_optional(m))),
                j + 1,
            );
        } else {
            lemma_fill_fields_shape(fields, metas, j + 1);
        }
    }
}

proof fn lemma_fill_lang_shape(
    cats: Seq<(Seq<char>, GCat)>,
    mt: Seq<(Seq<char>, Seq<(Seq<char>, Meta)>)>,
    i: int,
)
    ensures
        mt_same_shape(mt, fill_lang(cats, mt, i).1),
    decreases mt.len() - i,
{
    if 0 <= i < mt.len() {
        let (catname, metas) = mt[i];
        match al_get(cats, catname) {
            Some(GCat::Link(_t, _c)) => {
                lemma_fill_lang_shape(cats, mt, i + 1);
            },
            Some(GCat::Fields(f)) => {
                let (f1, metas1) = fill_fields(f, metas, 0);
                lemma_fill_fields_shape(f, metas, 0);
                lemma_fill_lang_shape(
                    al_insert(cats, catname, GCat::Fields(f1)),
                    mt.update(i, (catname, metas1)),
                    i + 1,
                );
            },
            None => {
                let (f1, metas1) = fill_fields(Seq::empty(), metas, 0);
                lemma_fill_fields_shape(Seq::empty(), metas, 0);
                lemma_fill_lang_shape(
                    al_insert(cats, catname, GCat::Fields(f1)),
                    mt.update(i, (catname, metas1)),
                    i + 1,
                );
            },
        }
    }
}

proof fn lemma_fill_all_shape(
    bl: Seq<(Seq<char>, Seq<(Seq<char>, GCat)>)>,
    mt: Seq<(Seq<char>, Seq<(Seq<char>, Meta)>)>,
    i: int,
)
    ensures
        mt_same_shape(mt, fill_all(bl, mt, i).1),
    decreases bl.len() - i,
{
    if 0 <= i < bl.len() {
        let (lang, cats) = bl[i];
        let (cats1, mt1) = fill_lang(cats, mt, 0);
        lemma_fill_lang_shape(cats, mt, 0);
        lemma_fill_all_shape(bl.update(i, (lang, cats1)), mt1, i + 1);
    }
}

/// Same shape implies growth: every lookup finds the same arity and type.
proof fn lemma_same_shape_grows(
    a: Seq<(Seq<char>, Seq<(Seq<char>, Meta)>)>,
    b: Seq<(Seq<char>, Seq<(Seq<char>, Meta)>)>,
)
    requires
        mt_same_shape(a, b),
    ensures
        meta_grows(a, b),
{
    assert forall|c: Seq<char>| (#[trigger] al_get(a, c)) is Some implies al_get(b, c) is Some
        && cmeta_grows(al_get(a, c)->0, al_get(b, c)->0) by {
        lemma_same_shape_get(a, b, c);
        let ca = al_get(a, c)->0;
        let cb = al_get(b, c)->0;
        assert forall|k: Seq<char>| (#[trigger] al_get(ca, k)) is Some implies al_get(cb, k)
            is Some && meta_le(al_get(ca, k)->0, al_get(cb, k)->0) by {
            lemma_cmeta_same_shape_get(ca, cb, k);
        }
    }
}

proof fn lemma_same_shape_get(
    a: Seq<(Seq<char>, Seq<(Seq<char>, Meta)>)>,
    b: Seq<(Seq<char>, Seq<(Seq<char>, Meta)>)>,
    c: Seq<char>,
)
    requires
        mt_same_shape(a, b),
    ensures
        al_get(a, c) is Some ==> al_get(b, c) is Some && cmeta_same_shape(
            al_get(a, c)->0,
            al_get(b, c)->0,
        ),
    decreases a.len(),
{
    if a.len() > 0 {
        assert(b[0].0 == a[0].0 && cmeta_same_shape(a[0].1, b[0].1));
        if a[0].0 != c {
            assert(a.drop_first().len() == b.drop_first().len());
            assert(mt_same_shape(a.drop_first(), b.drop_first())) by {
                assert forall|i: int| 0 <= i < a.drop_first().len() implies (#[trigger] b.drop_first()[i]).0
                    == a.drop_first()[i].0 && cmeta_same_shape(
                    a.drop_first()[i].1,
                    b.drop_first()[i].1,
                ) by {
                    assert(a.drop_first()[i] == a[i + 1]);
                    assert(b.drop_first()[i] == b[i + 1]);
                }
            }
            lemma_same_shape_get(a.drop_first(), b.drop_first(), c);
        }
    }
}

proof fn lemma_cmeta_same_shape_get(
    a: Seq<(Seq<char>, Meta)>,
    b: Seq<(Seq<char>, Meta)>,
    k: Seq<char>,
)
    requires
        cmeta_same_shape(a, b),
    ensures
        al_get(a, k) is Some ==> al_get(b, k) is Some && meta_le(al_get(a, k)->0, al_get(b, k)->0),
    decreases a.len(),
{
    if a.len() > 0 {
        assert(b[0].0 == a[0].0);
        if a[0].0 != k {
            assert(cmeta_same_shape(a.drop_first(), b.drop_first())) by {
                assert forall|i: int| 0 <= i < a.drop_first().len() implies (#[trigger] b.drop_first()[i]).0
                    == a.drop_first()[i].0 && b.drop_first()[i].1.container_ty
                    == a.drop_first()[i].1.container_ty && b.drop_first()[i].1.ty
                    == a.drop_first()[i].1.ty by {
                    assert(a.drop_first()[i] == a[i + 1]);
                    assert(b.drop_first()[i] == b[i + 1]);
                }
            }
            lemma_cmeta_same_shape_get(a.drop_first(), b.drop_first(), k);
        }
    }
}

// ---------------------------------------------------------------------------
// Arity monotonicity
// ---------------------------------------------------------------------------

/// Splitting the fold: folding a prefix and then the rest is folding the
/// whole input.
proof fn lemma_fold_locales_split(
    input: Seq<(Seq<char>, Seq<GObj>)>,
    i: int,
    st: UState,
    known: Set<Seq<char>>,
)
    requires
        0 <= i <= input.len(),
    ensures
        fold_locales(input, st, known) == match fold_locales(input.take(i), st, known) {
            Ok(st_i) => fold_locales(input.skip(i), st_i, known),
            Err(e) => Err(e),
        },
    decreases i,
{
    if i == 0 {
        assert(input.take(0) =~= Seq::<(Seq<char>, Seq<GObj>)>::empty());
        assert(input.skip(0) =~= input);
    } else {
        let (lang, objs) = input[0];
        assert(input.take(i)[0] == input[0]);
        match fold_objects(lang, objs, Seq::empty(), st.field_metadata, known) {
            Err(_e) => {},
            Ok((cats, meta1)) => {
                let st1 = UState {
                    by_language: al_insert(st.by_language, lang, cats),
                    field_metadata: meta1,
                    normalized_langs: al_insert(
                        st.normalized_langs,
                        lang,
                        crate::schema::norm_at(lang),
                    ),
                };
                assert(input.take(i).drop_first() =~= input.drop_first().take(i - 1));
                assert(input.skip(i) =~= input.drop_first().skip(i - 1));
                lemma_fold_locales_split(input.drop_first(), i - 1, st1, known);
            },
        }
    }
}

/// Arity monotonicity: once unification of some prefix of the locale set
/// has recorded an arity (and a type) for a (category, key) pair, unifying
/// the whole set never records anything narrower for that pair —
/// `Scalar` may widen to `Array` and `Array` to `Matrix`, never backward,
/// and a field typed `String` never reverts to `Integer`.
pub proof fn lemma_arity_monotone(
    input: Seq<(Seq<char>, Seq<GObj>)>,
    i: int,
    g1: GGen,
    g2: GGen,
)
    requires
        0 <= i <= input.len(),
        spec_unify(input.take(i)) == Ok::<GGen, GSchemaErr>(g1),
        spec_unify(input) == Ok::<GGen, GSchemaErr>(g2),
    ensures
        meta_grows(g1.field_metadata, g2.field_metadata),
{
    let st0 = UState {
        by_language: Seq::empty(),
        field_metadata: Seq::empty(),
        normalized_langs: Seq::empty(),
    };
    let known_i = crate::schema::known_locales(input.take(i));
    let known = crate::schema::known_locales(input);
    let sti = fold_locales(input.take(i), st0, known_i)->Ok_0;
    let stf = fold_locales(input, st0, known)->Ok_0;
    // the prefix fold with the full known set gives the same state: the known
    // set only decides between two error outcomes, so on success it is the
    // same fold
    lemma_fold_locales_known_irrelevant(input.take(i), st0, known_i, known);
    lemma_fold_locales_split(input, i, st0, known);
    let st_mid = fold_locales(input.take(i), st0, known)->Ok_0;
    lemma_fold_locales_grows(input.skip(i), st_mid, known);
    // g1's metadata is sti's after the fill, which keeps every shape
    lemma_fill_all_shape(sti.by_language, sti.field_metadata, 0);
    lemma_fill_all_shape(stf.by_language, stf.field_metadata, 0);
    lemma_same_shape_grows(
        sti.field_metadata,
        fill_all(sti.by_language, sti.field_metadata, 0).1,
    );
    lemma_same_shape_grows(
        stf.field_metadata,
        fill_all(stf.by_language, stf.field_metadata, 0).1,
    );
    lemma_shape_grows_reverse(
        sti.field_metadata,
        fill_all(sti.by_language, sti.field_metadata, 0).1,
    );
    lemma_meta_grows_transitive(
        g1.field_metadata,
        sti.field_metadata,
        st_mid.field_metadata,
    );
    lemma_meta_grows_transitive(
        g1.field_metadata,
        st_mid.field_metadata,
        stf.field_metadata,
    );
    lemma_meta_grows_transitive(g1.field_metadata, stf.field_metadata, g2.field_metadata);
}

/// Same shape also grows backward: the fill changes no arity or type.
proof fn lemma_shape_grows_reverse(
    a: Seq<(Seq<char>, Seq<(Seq<char>, Meta)>)>,
    b: Seq<(Seq<char>, Seq<(Seq<char>, Meta)>)>,
)
    requires
        mt_same_shape(a, b),
    ensures
        meta_grows(b, a),
{
    assert(mt_same_shape(b, a)) by {
        assert forall|i: int| 0 <= i < b.len() implies (#[trigger] a[i]).0 == b[i].0
            && cmeta_same_shape(b[i].1, a[i].1) by {
            assert(b[i].0 == a[i].0);
        }
    }
    lemma_same_shape_grows(b, a);
}

/// Whether a link succeeds or fails, the successful fold is the same under
/// any known set that agrees on the targets it meets; on a successful fold
/// the two sets agreed on every target, so the folds are equal.
proof fn lemma_fold_locales_known_irrelevant(
    input: Seq<(Seq<char>, Seq<GObj>)>,
    st: UState,
    k1: Set<Seq<char>>,
    k2: Set<Seq<char>>,
)
    requires
        fold_locales(input, st, k1) is Ok,
        forall|t: Seq<char>| k1.contains(t) ==> k2.contains(t),
    ensures
        fold_locales(input, st, k2) == fold_locales(input, st, k1),
    decreases input.len(),
{
    if input.len() > 0 {
        let (lang, objs) = input[0];
        lemma_fold_objects_known_irrelevant(lang, objs, Seq::empty(), st.field_metadata, k1, k2);
        match fold_objects(lang, objs, Seq::empty(), st.field_metadata, k1) {
            Err(_) => {},
            Ok((cats, meta1)) => {
                let st1 = UState {
                    by_language: al_insert(st.by_language, lang, cats),
                    field_metadata: meta1,
                    normalized_langs: al_insert(
                        st.normalized_langs,
                        lang,
                        crate::schema::norm_at(lang),
                    ),
                };
                lemma_fold_locales_known_irrelevant(input.drop_first(), st1, k1, k2);
            },
        }
    }
}

proof fn lemma_fold_objects_known_irrelevant(
    lang: Seq<char>,
    objs: Seq<GObj>,
    cats: Seq<(Seq<char>, GCat)>,
    meta: Seq<(Seq<char>, Seq<(Seq<char>, Meta)>)>,
    k1: Set<Seq<char>>,
    k2: Set<Seq<char>>,
)
    requires
        fold_objects(lang, objs, cats, meta, k1) is Ok,
        forall|t: Seq<char>| k1.contains(t) ==> k2.contains(t),
    ensures
        fold_objects(lang, objs, cats, meta, k2) == fold_objects(lang, objs, cats, meta, k1),
    decreases objs.len(),
{
    if objs.len() > 0 {
        let o = objs[0];
        if crate::schema::is_skipped_category(o.name) {
            lemma_fold_objects_known_irrelevant(lang, objs.drop_first(), cats, meta, k1, k2);
        } else if crate::schema::is_link_shape(o.runs) {
            let payload = o.runs[0].1;
            if payload.len() == 1 && payload[0] is Str {
                let target = crate::schema::norm_at(payload[0]->Str_0);
                if k1.contains(target) {
                    lemma_fold_objects_known_irrelevant(
                        lang,
                        objs.drop_first(),
                        al_insert(cats, o.name, GCat::Link(target, o.name)),
                        meta,
                        k1,
                        k2,
                    );
                }
            }
        } else {
            let cmeta0 = match al_get(meta, o.name) {
                Some(cm) => cm,
                None => Seq::empty(),
            };
            match fold_groups(lang, o.name, crate::schema::group_runs(o.runs), Seq::empty(), cmeta0) {
                Err(_) => {},
                Ok((fields, cmeta1)) => {
                    lemma_fold_objects_known_irrelevant(
                        lang,
                        objs.drop_first(),
                        al_insert(cats, o.name, GCat::Fields(fields)),
                        al_insert(meta, o.name, cmeta1),
                        k1,
                        k2,
                    );
                },
            }
        }
    }
}

// ---------------------------------------------------------------------------
// Field-set closure
// ---------------------------------------------------------------------------

/// Pass-one invariant: tables sorted, and every field table's keys are
/// drawn from its category's metadata.
pub open spec fn p1_inv(
    cats: Seq<(Seq<char>, GCat)>,
    meta: Seq<(Seq<char>, Seq<(Seq<char>, Meta)>)>,
) -> bool {
    &&& al_sorted(cats)
    &&& al_sorted(meta)
    &&& forall|i: int| 0 <= i < meta.len() ==> al_sorted((#[trigger] meta[i]).1)
    &&& forall|c: Seq<char>|
        (#[trigger] al_get(cats, c)) matches Some(GCat::Fields(f)) ==> al_get(meta, c) matches Some(
            cm,
        ) && al_keys(f).subset_of(al_keys(cm))
}

/// The same, over every locale.
pub open spec fn p1_bl_inv(
    bl: Seq<(Seq<char>, Seq<(Seq<char>, GCat)>)>,
    meta: Seq<(Seq<char>, Seq<(Seq<char>, Meta)>)>,
) -> bool {
    &&& al_sorted(bl)
    &&& forall|i: int| 0 <= i < bl.len() ==> p1_inv((#[trigger] bl[i]).1, meta)
}

/// A filled locale: every field table binds exactly its category's
/// canonical keys.
pub open spec fn cats_closed(
    cats: Seq<(Seq<char>, GCat)>,
    mt: Seq<(Seq<char>, Seq<(Seq<char>, Meta)>)>,
) -> bool {
    forall|c: Seq<char>|
        (#[trigger] al_get(cats, c)) matches Some(GCat::Fields(f)) ==> al_get(mt, c) matches Some(
            cm,
        ) && al_keys(f) == al_keys(cm)
}

proof fn lemma_fold_groups_inv(
    lang: Seq<char>,
    cat: Seq<char>,
    gs: Seq<(Seq<char>, Seq<Seq<crate::grammar::GVal>>)>,
    fields: Seq<(Seq<char>, GFVal)>,
    cmeta: Seq<(Seq<char>, Meta)>,
)
    requires
        al_keys(fields).subset_of(al_keys(cmeta)),
        al_sorted(fields),
        al_sorted(cmeta),
    ensures
        fold_groups(lang, cat, gs, fields, cmeta) matches Ok((f, cm)) ==> al_keys(f).subset_of(
            al_keys(cm),
        ) && al_sorted(f) && al_sorted(cm) && al_keys(cmeta).subset_of(al_keys(cm)),
    decreases gs.len(),
{
    if gs.len() == 0 {
    } else {
        let (rk, rs) = gs[0];
        let nk = crate::schema::norm_key(rk);
        let m0 = match al_get(cmeta, nk) {
            Some(m) => m,
            None => spec_meta_new(),
        };
        match classify_group(rs, m0) {
            None => {},
            Some((fv, m1)) => {
                let f1 = al_insert(fields, nk, fv);
                let cm1 = al_insert(cmeta, nk, m1);
                crate::alist::lemma_al_insert_keys_any(fields, nk, fv);
                crate::alist::lemma_al_insert_keys_any(cmeta, nk, m1);
                crate::alist::lemma_al_insert_sorted(fields, nk, fv);
                crate::alist::lemma_al_insert_sorted(cmeta, nk, m1);
                lemma_fold_groups_inv(lang, cat, gs.drop_first(), f1, cm1);
            },
        }
    }
}

proof fn lemma_fold_objects_inv(
    lang: Seq<char>,
    objs: Seq<GObj>,
    cats: Seq<(Seq<char>, GCat)>,
    meta: Seq<(Seq<char>, Seq<(Seq<char>, Meta)>)>,
    known: Set<Seq<char>>,
)
    requires
        p1_inv(cats, meta),
    ensures
        fold_objects(lang, objs, cats, meta, known) matches Ok((c2, m2)) ==> p1_inv(c2, m2),
    decreases objs.len(),
{
    if objs.len() == 0 {
    } else {
        let o = objs[0];
        if crate::schema::is_skipped_category(o.name) {
            lemma_fold_objects_inv(lang, objs.drop_first(), cats, meta, known);
        } else if crate::schema::is_link_shape(o.runs) {
            let payload = o.runs[0].1;
            if payload.len() == 1 && payload[0] is Str {
                let target = crate::schema::norm_at(payload[0]->Str_0);
                if known.contains(target) {
                    let cats1 = al_insert(cats, o.name, GCat::Link(target, o.name));
                    assert(p1_inv(cats1, meta)) by {
                        crate::alist::lemma_al_insert_sorted(
                            cats,
                            o.name,
                            GCat::Link(target, o.name),
                        );
                        assert forall|c: Seq<char>| (#[trigger] al_get(cats1, c)) matches Some(
                            GCat::Fields(f),
                        ) implies al_get(meta, c) is Some && al_keys(
                            al_get(cats1, c)->0->Fields_0,
                        ).subset_of(al_keys(al_get(meta, c)->0)) by {
                            lemma_al_get_insert(cats, o.name, GCat::Link(target, o.name), c);
                        }
                    }
                    lemma_fold_objects_inv(lang, objs.drop_first(), cats1, meta, known);
                }
            }
        } else {
            let cmeta0 = match al_get(meta, o.name) {
                Some(cm) => cm,
                None => Seq::empty(),
            };
            let groups = crate::schema::group_runs(o.runs);
            assert(al_sorted(cmeta0)) by {
                if al_get(meta, o.name) is Some {
                    lemma_al_get_sorted_inner(meta, o.name);
                }
            }
            lemma_fold_groups_inv(
                lang,
                o.name,
                groups,
                Seq::empty(),
                cmeta0,
            );
            match fold_groups(lang, o.name, groups, Seq::empty(), cmeta0) {
                Err(_) => {},
                Ok((fields, cmeta1)) => {
                    let cats1 = al_insert(cats, o.name, GCat::Fields(fields));
                    let meta1 = al_insert(meta, o.name, cmeta1);
                    assert(p1_inv(cats1, meta1)) by {
                        crate::alist::lemma_al_insert_sorted(cats, o.name, GCat::Fields(fields));
                        crate::alist::lemma_al_insert_sorted(meta, o.name, cmeta1);
                        assert forall|i: int| 0 <= i < meta1.len() implies al_sorted(
                            (#[trigger] meta1[i]).1,
                        ) by {
                            crate::alist::lemma_al_insert_values(meta, o.name, cmeta1);
                            assert(meta1[i] == (o.name, cmeta1) || exists|l: int|
                                0 <= l < meta.len() && meta[l] == meta1[i]);
                            if meta1[i] != (o.name, cmeta1) {
                                let l = choose|l: int| 0 <= l < meta.len() && meta[l] == meta1[i];
                                assert(al_sorted(meta[l].1));
                            }
                        }
                        assert forall|c: Seq<char>| (#[trigger] al_get(cats1, c)) matches Some(
                            GCat::Fields(f),
                        ) implies al_get(meta1, c) is Some && al_keys(
                            al_get(cats1, c)->0->Fields_0,
                        ).subset_of(al_keys(al_get(meta1, c)->0)) by {
                            lemma_al_get_insert(cats, o.name, GCat::Fields(fields), c);
                            lemma_al_get_insert(meta, o.name, cmeta1, c);
                        }
                    }
                    lemma_fold_objects_inv(lang, objs.drop_first(), cats1, meta1, known);
                },
            }
        }
    }
}

/// Looking up a category in a table whose entries are all sorted gives a
/// sorted table.
proof fn lemma_al_get_sorted_inner(
    meta: Seq<(Seq<char>, Seq<(Seq<char>, Meta)>)>,
    c: Seq<char>,
)
    requires
        al_get(meta, c) is Some,
        forall|i: int| 0 <= i < meta.len() ==> al_sorted((#[trigger] meta[i]).1),
    ensures
        al_sorted(al_get(meta, c)->0),
    decreases meta.len(),
{
    if meta.len() > 0 {
        if meta[0].0 == c {
            assert(al_sorted(meta[0].1));
        } else {
            assert(forall|i: int|
                0 <= i < meta.drop_first().len() ==> meta.drop_first()[i] == meta[i + 1]);
            lemma_al_get_sorted_inner(meta.drop_first(), c);
        }
    }
}

/// The keys of the metadata entries from index `j` on.
pub open spec fn keys_from(metas: Seq<(Seq<char>, Meta)>, j: int) -> Set<Seq<char>> {
    Set::new(|k: Seq<char>| exists|l: int| j <= l < metas.len() && metas[l].0 == k)
}

/// Filling one field table binds exactly the old keys plus every canonical
/// key, and moves no metadata key.
proof fn lemma_fill_fields_keys(
    fields: Seq<(Seq<char>, GFVal)>,
    metas: Seq<(Seq<char>, Meta)>,
    j: int,
)
    requires
        0 <= j <= metas.len(),
    ensures
        ({
            let (f1, m1) = fill_fields(fields, metas, j);
            &&& al_keys(f1) =~= al_keys(fields).union(keys_from(metas, j))
            &&& m1.len() == metas.len()
            &&& forall|l: int| 0 <= l < metas.len() ==> (#[trigger] m1[l]).0 == metas[l].0
        }),
    decreases metas.len() - j,
{
    if j == metas.len() {
        assert(keys_from(metas, j) =~= Set::<Seq<char>>::empty());
        assert(al_keys(fields).union(Set::empty()) =~= al_keys(fields));
    } else {
        let (k, m) = metas[j];
        if al_get(fields, k) is None {
            let f2 = al_insert(fields, k, GFVal::Empty);
            let m2 = metas.update(j, (k, spec_make_optional(m)));
            crate::alist::lemma_al_insert_keys_any(fields, k, GFVal::Empty);
            lemma_fill_fields_keys(f2, m2, j + 1);
            assert(keys_from(m2, j + 1) =~= keys_from(metas, j + 1)) by {
                assert(forall|l: int| 0 <= l < metas.len() ==> (#[trigger] m2[l]).0 == metas[l].0);
                assert forall|x: Seq<char>| #[trigger] keys_from(m2, j + 1).contains(x)
                    <==> keys_from(metas, j + 1).contains(x) by {
                    if keys_from(m2, j + 1).contains(x) {
                        let l = choose|l: int| j + 1 <= l < m2.len() && m2[l].0 == x;
                        assert(metas[l].0 == x);
                    }
                    if keys_from(metas, j + 1).contains(x) {
                        let l = choose|l: int| j + 1 <= l < metas.len() && metas[l].0 == x;
                        assert(m2[l].0 == x);
                    }
                }
            }
            assert(al_keys(fields).insert(k).union(keys_from(metas, j + 1)) =~= al_keys(
                fields,
            ).union(keys_from(metas, j))) by {
                assert(keys_from(metas, j).contains(k));
                assert forall|x: Seq<char>| keys_from(metas, j).contains(x) implies x == k
                    || keys_from(metas, j + 1).contains(x) by {
                    let l = choose|l: int| j <= l < metas.len() && metas[l].0 == x;
                    if l > j {
                    }
                }
            }
        } else {
            lemma_fill_fields_keys(fields, metas, j + 1);
            crate::alist::lemma_al_get_is_key(fields, k);
            assert(al_keys(fields).union(keys_from(metas, j + 1)) =~= al_keys(fields).union(
                keys_from(metas, j),
            )) by {
                assert(al_keys(fields).contains(k));
                assert forall|x: Seq<char>| keys_from(metas, j).contains(x) implies x == k
                    || keys_from(metas, j + 1).contains(x) by {
                    let l = choose|l: int| j <= l < metas.len() && metas[l].0 == x;
                    if l > j {
                    }
                }
            }
        }
    }
}

/// Closed-ness of a locale is stable under key-preserving metadata updates.
proof fn lemma_closed_stable(
    cats: Seq<(Seq<char>, GCat)>,
    a: Seq<(Seq<char>, Seq<(Seq<char>, Meta)>)>,
    b: Seq<(Seq<char>, Seq<(Seq<char>, Meta)>)>,
)
    requires
        cats_closed(cats, a),
        crate::laws::mt_same_shape(a, b),
    ensures
        cats_closed(cats, b),
{
    assert forall|c: Seq<char>| (#[trigger] al_get(cats, c)) matches Some(GCat::Fields(f))
        implies al_get(b, c) is Some && al_keys(al_get(cats, c)->0->Fields_0) == al_keys(
        al_get(b, c)->0,
    ) by {
        lemma_same_shape_get(a, b, c);
        let cma = al_get(a, c)->0;
        let cmb = al_get(b, c)->0;
        crate::alist::lemma_al_keys_pointwise(cma, cmb);
    }
}

/// The drawn-from condition is likewise stable.
proof fn lemma_keyed_stable(
    cats: Seq<(Seq<char>, GCat)>,
    a: Seq<(Seq<char>, Seq<(Seq<char>, Meta)>)>,
    b: Seq<(Seq<char>, Seq<(Seq<char>, Meta)>)>,
)
    requires
        forall|c: Seq<char>|
            (#[trigger] al_get(cats, c)) matches Some(GCat::Fields(f)) ==> al_get(a, c) matches Some(
                cm,
            ) && al_keys(f).subset_of(al_keys(cm)),
        crate::laws::mt_same_shape(a, b),
    ensures
        forall|c: Seq<char>|
            (#[trigger] al_get(cats, c)) matches Some(GCat::Fields(f)) ==> al_get(b, c) matches Some(
                cm,
            ) && al_keys(f).subset_of(al_keys(cm)),
{
    assert forall|c: Seq<char>| (#[trigger] al_get(cats, c)) matches Some(GCat::Fields(f))
        implies al_get(b, c) is Some && al_keys(al_get(cats, c)->0->Fields_0).subset_of(
        al_keys(al_get(b, c)->0),
    ) by {
        lemma_same_shape_get(a, b, c);
        crate::alist::lemma_al_keys_pointwise(al_get(a, c)->0, al_get(b, c)->0);
    }
}

/// Filling one locale closes every one of its field tables.
proof fn lemma_fill_lang_closed(
    cats: Seq<(Seq<char>, GCat)>,
    mt: Seq<(Seq<char>, Seq<(Seq<char>, Meta)>)>,
    i: int,
)
    requires
        0 <= i <= mt.len(),
        al_sorted(cats),
        al_sorted(mt),
        forall|c: Seq<char>|
            (#[trigger] al_get(cats, c)) matches Some(GCat::Fields(f)) ==> al_get(mt, c) matches Some(
                cm,
            ) && al_keys(f).subset_of(al_keys(cm)),
        forall|l: int| #![trigger mt[l]]
            0 <= l < i ==> (al_get(cats, mt[l].0) matches Some(GCat::Fields(f)) ==> al_keys(f)
                == al_keys(mt[l].1)),
    ensures
        ({
            let (cats1, mt1) = fill_lang(cats, mt, i);
            &&& al_sorted(cats1)
            &&& crate::laws::mt_same_shape(mt, mt1)
            &&& cats_closed(cats1, mt1)
        }),
    decreases mt.len() - i,
{
    lemma_fill_lang_shape(cats, mt, i);
    if i == mt.len() {
        let (cats1, mt1) = fill_lang(cats, mt, i);
        assert(cats1 == cats && mt1 == mt);
        assert forall|c: Seq<char>| (#[trigger] al_get(cats, c)) matches Some(GCat::Fields(f))
            implies al_get(mt, c) is Some && al_keys(al_get(cats, c)->0->Fields_0) == al_keys(
            al_get(mt, c)->0,
        ) by {
            let f = al_get(cats, c)->0->Fields_0;
            let cm = al_get(mt, c)->0;
            crate::alist::lemma_al_get_is_key(mt, c);
            let l = choose|l: int| 0 <= l < mt.len() && mt[l].0 == c;
            crate::alist::lemma_al_get_at_index(mt, l);
            assert(al_get(cats, mt[l].0) matches Some(GCat::Fields(f2)));
            assert(al_keys(f) == al_keys(mt[l].1));
        }
    } else {
        let (catname, metas) = mt[i];
        crate::alist::lemma_al_get_at_index(mt, i);
        assert(al_get(mt, catname) == Some(metas));
        match al_get(cats, catname) {
            Some(GCat::Link(_t, _c)) => {
                assert(forall|l: int| #![trigger mt[l]]
                    0 <= l < i + 1 ==> (al_get(cats, mt[l].0) matches Some(GCat::Fields(f))
                        ==> al_keys(f) == al_keys(mt[l].1)));
                lemma_fill_lang_closed(cats, mt, i + 1);
            },
            Some(GCat::Fields(f)) => {
                let (f1, metas1) = fill_fields(f, metas, 0);
                lemma_fill_fields_keys(f, metas, 0);
                assert(keys_from(metas, 0) =~= al_keys(metas)) by {
                    assert forall|x: Seq<char>| keys_from(metas, 0).contains(x) <==> al_keys(
                        metas,
                    ).contains(x) by {}
                }
                assert(al_keys(f).subset_of(al_keys(metas)));
                assert(al_keys(f1) =~= al_keys(metas));
                lemma_fill_fields_shape(f, metas, 0);
                crate::alist::lemma_al_keys_pointwise(metas, metas1);
                let cats2 = al_insert(cats, catname, GCat::Fields(f1));
                let mt2 = mt.update(i, (catname, metas1));
                crate::alist::lemma_al_insert_sorted(cats, catname, GCat::Fields(f1));
                assert(al_sorted(mt2)) by {
                    assert(forall|a: int, b: int|
                        0 <= a < b < mt2.len() ==> mt2[a].0 == mt[a].0 && mt2[b].0 == mt[b].0);
                }
                assert forall|c: Seq<char>| (#[trigger] al_get(cats2, c)) matches Some(
                    GCat::Fields(f_),
                ) implies al_get(mt2, c) is Some && al_keys(
                    al_get(cats2, c)->0->Fields_0,
                ).subset_of(al_keys(al_get(mt2, c)->0)) by {
                    lemma_al_get_insert(cats, catname, GCat::Fields(f1), c);
                    crate::alist::lemma_al_get_update(mt, i, metas1, c);
                }
                assert(forall|l: int| #![trigger mt2[l]]
                    0 <= l < i + 1 ==> (al_get(cats2, mt2[l].0) matches Some(GCat::Fields(f_))
                        ==> al_keys(f_) == al_keys(mt2[l].1))) by {
                    assert forall|l: int| #![trigger mt2[l]] 0 <= l < i + 1 implies (al_get(
                        cats2,
                        mt2[l].0,
                    ) matches Some(GCat::Fields(f_)) ==> al_keys(f_) == al_keys(mt2[l].1)) by {
                        assert(mt2[l].0 == mt[l].0);
                        lemma_al_get_insert(cats, catname, GCat::Fields(f1), mt2[l].0);
                        if l < i {
                            crate::order::lemma_str_lt_asymmetric(mt[l].0, catname);
                            assert(mt[l].0 != catname);
                            assert(mt2[l].1 == mt[l].1);
                        } else {
                            assert(mt2[l].0 == catname);
                            assert(mt2[l].1 == metas1);
                        }
                    }
                }
                lemma_fill_lang_closed(cats2, mt2, i + 1);
                lemma_same_shape_trans(mt, mt2, fill_lang(cats2, mt2, i + 1).1);
            },
            None => {
                let f: Seq<(Seq<char>, GFVal)> = Seq::empty();
                let (f1, metas1) = fill_fields(f, metas, 0);
                lemma_fill_fields_keys(f, metas, 0);
                assert(keys_from(metas, 0) =~= al_keys(metas)) by {
                    assert forall|x: Seq<char>| keys_from(metas, 0).contains(x) <==> al_keys(
                        metas,
                    ).contains(x) by {}
                }
                assert(al_keys(f) =~= Set::<Seq<char>>::empty());
                assert(al_keys(f1) =~= al_keys(metas));
                lemma_fill_fields_shape(f, metas, 0);
                crate::alist::lemma_al_keys_pointwise(metas, metas1);
                let cats2 = al_insert(cats, catname, GCat::Fields(f1));
                let mt2 = mt.update(i, (catname, metas1));
                crate::alist::lemma_al_insert_sorted(cats, catname, GCat::Fields(f1));
                assert(al_sorted(mt2)) by {
                    assert(forall|a: int, b: int|
                        0 <= a < b < mt2.len() ==> mt2[a].0 == mt[a].0 && mt2[b].0 == mt[b].0);
                }
                assert forall|c: Seq<char>| (#[trigger] al_get(cats2, c)) matches Some(
                    GCat::Fields(f_),
                ) implies al_get(mt2, c) is Some && al_keys(
                    al_get(cats2, c)->0->Fields_0,
                ).subset_of(al_keys(al_get(mt2, c)->0)) by {
                    lemma_al_get_insert(cats, catname, GCat::Fields(f1), c);
                    crate::alist::lemma_al_get_update(mt, i, metas1, c);
                }
                assert(forall|l: int| #![trigger mt2[l]]
                    0 <= l < i + 1 ==> (al_get(cats2, mt2[l].0) matches Some(GCat::Fields(f_))
                        ==> al_keys(f_) == al_keys(mt2[l].1))) by {
                    assert forall|l: int| #![trigger mt2[l]] 0 <= l < i + 1 implies (al_get(
                        cats2,
                        mt2[l].0,
                    ) matches Some(GCat::Fields(f_)) ==> al_keys(f_) == al_keys(mt2[l].1)) by {
                        assert(mt2[l].0 == mt[l].0);
                        lemma_al_get_insert(cats, catname, GCat::Fields(f1), mt2[l].0);
                        if l < i {
                            crate::order::lemma_str_lt_asymmetric(mt[l].0, catname);
                            assert(mt[l].0 != catname);
                            assert(mt2[l].1 == mt[l].1);
                        } else {
                            assert(mt2[l].0 == catname);
                            assert(mt2[l].1 == metas1);
                        }
                    }
                }
                lemma_fill_lang_closed(cats2, mt2, i + 1);
                lemma_same_shape_trans(mt, mt2, fill_lang(cats2, mt2, i + 1).1);
            },
        }
    }
}

proof fn lemma_same_shape_trans(
    a: Seq<(Seq<char>, Seq<(Seq<char>, Meta)>)>,
    b: Seq<(Seq<char>, Seq<(Seq<char>, Meta)>)>,
    c: Seq<(Seq<char>, Seq<(Seq<char>, Meta)>)>,
)
    requires
        mt_same_shape(a, b),
        mt_same_shape(b, c),
    ensures
        mt_same_shape(a, c),
{
    assert forall|i: int| 0 <= i < a.len() implies (#[trigger] c[i]).0 == a[i].0
        && cmeta_same_shape(a[i].1, c[i].1) by {
        assert(b[i].0 == a[i].0 && cmeta_same_shape(a[i].1, b[i].1));
        assert(c[i].0 == b[i].0 && cmeta_same_shape(b[i].1, c[i].1));
    }
}

/// Filling every locale closes every field table everywhere.
proof fn lemma_fill_all_closed(
    bl: Seq<(Seq<char>, Seq<(Seq<char>, GCat)>)>,
    mt: Seq<(Seq<char>, Seq<(Seq<char>, Meta)>)>,
    i: int,
)
    requires
        0 <= i <= bl.len(),
        al_sorted(mt),
        forall|l: int| #![trigger bl[l]]
            0 <= l < bl.len() ==> al_sorted(bl[l].1) && (forall|c: Seq<char>|
                (#[trigger] al_get(bl[l].1, c)) matches Some(GCat::Fields(f)) ==> al_get(mt, c)
                    matches Some(cm) && al_keys(f).subset_of(al_keys(cm))),
        forall|l: int| #![trigger bl[l]] 0 <= l < i ==> cats_closed(bl[l].1, mt),
    ensures
        ({
            let (bl1, mt1) = fill_all(bl, mt, i);
            &&& bl1.len() == bl.len()
            &&& forall|l: int| #![trigger bl1[l]]
                0 <= l < bl.len() ==> bl1[l].0 == bl[l].0 && al_sorted(bl1[l].1) && cats_closed(
                    bl1[l].1,
                    mt1,
                )
            &&& mt_same_shape(mt, mt1)
        }),
    decreases bl.len() - i,
{
    if i == bl.len() {
        let (bl1, mt1) = fill_all(bl, mt, i);
        assert(bl1 == bl && mt1 == mt);
        lemma_same_shape_refl(mt);
    } else {
        let (lang, cats) = bl[i];
        let (cats1, mt2) = fill_lang(cats, mt, 0);
        lemma_fill_lang_closed(cats, mt, 0);
        let bl2 = bl.update(i, (lang, cats1));
        assert(al_sorted(mt2)) by {
            assert(forall|a: int, b: int|
                0 <= a < b < mt2.len() ==> mt2[a].0 == mt[a].0 && mt2[b].0 == mt[b].0);
        }
        assert(forall|l: int| #![trigger bl2[l]]
            0 <= l < bl2.len() ==> al_sorted(bl2[l].1) && (forall|c: Seq<char>|
                (#[trigger] al_get(bl2[l].1, c)) matches Some(GCat::Fields(f)) ==> al_get(mt2, c)
                    matches Some(cm) && al_keys(f).subset_of(al_keys(cm)))) by {
            assert forall|l: int| #![trigger bl2[l]] 0 <= l < bl2.len() implies al_sorted(
                bl2[l].1,
            ) && (forall|c: Seq<char>|
                (#[trigger] al_get(bl2[l].1, c)) matches Some(GCat::Fields(f)) ==> al_get(mt2, c)
                    matches Some(cm) && al_keys(f).subset_of(al_keys(cm))) by {
                if l == i {
                    assert(bl2[l].1 == cats1);
                    assert forall|c: Seq<char>| (#[trigger] al_get(cats1, c)) matches Some(
                        GCat::Fields(f),
                    ) implies al_get(mt2, c) is Some && al_keys(
                        al_get(cats1, c)->0->Fields_0,
                    ).subset_of(al_keys(al_get(mt2, c)->0)) by {}
                } else {
                    assert(bl2[l] == bl[l]);
                    lemma_keyed_stable(bl[l].1, mt, mt2);
                }
            }
        }
        assert(forall|l: int| #![trigger bl2[l]] 0 <= l < i + 1 ==> cats_closed(bl2[l].1, mt2))
            by {
            assert forall|l: int| #![trigger bl2[l]] 0 <= l < i + 1 implies cats_closed(
                bl2[l].1,
                mt2,
            ) by {
                if l == i {
                    assert(bl2[l].1 == cats1);
                } else {
                    assert(bl2[l] == bl[l]);
                    lemma_closed_stable(bl[l].1, mt, mt2);
                }
            }
        }
        lemma_fill_all_closed(bl2, mt2, i + 1);
        let (bl1, mt1) = fill_all(bl2, mt2, i + 1);
        lemma_same_shape_trans(mt, mt2, mt1);
    }
}

proof fn lemma_same_shape_refl(a: Seq<(Seq<char>, Seq<(Seq<char>, Meta)>)>)
    ensures
        mt_same_shape(a, a),
{
}

proof fn lemma_fold_locales_inv(
    input: Seq<(Seq<char>, Seq<GObj>)>,
    st: UState,
    known: Set<Seq<char>>,
)
    requires
        al_sorted(st.by_language),
        al_sorted(st.field_metadata),
        forall|i: int|
            0 <= i < st.field_metadata.len() ==> al_sorted((#[trigger] st.field_metadata[i]).1),
        forall|l: int| #![trigger st.by_language[l]]
            0 <= l < st.by_language.len() ==> al_sorted(st.by_language[l].1) && (forall|
                c: Seq<char>,
            |
                (#[trigger] al_get(st.by_language[l].1, c)) matches Some(GCat::Fields(f))
                    ==> al_get(st.field_metadata, c) matches Some(cm) && al_keys(f).subset_of(
                    al_keys(cm),
                )),
    ensures
        fold_locales(input, st, known) matches Ok(st2) ==> al_sorted(st2.by_language) && al_sorted(
            st2.field_metadata,
        ) && (forall|i: int|
            0 <= i < st2.field_metadata.len() ==> al_sorted((#[trigger] st2.field_metadata[i]).1))
            && (forall|l: int| #![trigger st2.by_language[l]]
            0 <= l < st2.by_language.len() ==> al_sorted(st2.by_language[l].1) && (forall|
                c: Seq<char>,
            |
                (#[trigger] al_get(st2.by_language[l].1, c)) matches Some(GCat::Fields(f))
                    ==> al_get(st2.field_metadata, c) matches Some(cm) && al_keys(f).subset_of(
                    al_keys(cm),
                ))),
    decreases input.len(),
{
    if input.len() == 0 {
    } else {
        let (lang, objs) = input[0];
        let meta = st.field_metadata;
        assert(p1_inv(Seq::empty(), meta)) by {
            assert(al_sorted(Seq::<(Seq<char>, GCat)>::empty()));
        }
        lemma_fold_objects_inv(lang, objs, Seq::empty(), meta, known);
        lemma_fold_objects_grows(lang, objs, Seq::empty(), meta, known);
        match fold_objects(lang, objs, Seq::empty(), meta, known) {
            Err(_) => {},
            Ok((cats, meta1)) => {
                let bl1 = al_insert(st.by_language, lang, cats);
                crate::alist::lemma_al_insert_sorted(st.by_language, lang, cats);
                crate::alist::lemma_al_insert_values(st.by_language, lang, cats);
                let st1 = UState {
                    by_language: bl1,
                    field_metadata: meta1,
                    normalized_langs: al_insert(
                        st.normalized_langs,
                        lang,
                        crate::schema::norm_at(lang),
                    ),
                };
                assert(forall|l: int| #![trigger bl1[l]]
                    0 <= l < bl1.len() ==> al_sorted(bl1[l].1) && (forall|c: Seq<char>|
                        (#[trigger] al_get(bl1[l].1, c)) matches Some(GCat::Fields(f)) ==> al_get(
                            meta1,
                            c,
                        ) matches Some(cm) && al_keys(f).subset_of(al_keys(cm)))) by {
                    assert forall|l: int| #![trigger bl1[l]] 0 <= l < bl1.len() implies al_sorted(
                        bl1[l].1,
                    ) && (forall|c: Seq<char>|
                        (#[trigger] al_get(bl1[l].1, c)) matches Some(GCat::Fields(f)) ==> al_get(
                            meta1,
                            c,
                        ) matches Some(cm) && al_keys(f).subset_of(al_keys(cm))) by {
                        if bl1[l] == (lang, cats) {
                        } else {
                            let w = choose|w: int|
                                0 <= w < st.by_language.len() && st.by_language[w] == bl1[l];
                            assert(al_sorted(st.by_language[w].1));
                            assert forall|c: Seq<char>| (#[trigger] al_get(bl1[l].1, c)) matches Some(
                                GCat::Fields(f),
                            ) implies al_get(meta1, c) is Some && al_keys(
                                al_get(bl1[l].1, c)->0->Fields_0,
                            ).subset_of(al_keys(al_get(meta1, c)->0)) by {
                                assert(al_get(st.by_language[w].1, c) == al_get(bl1[l].1, c));
                                let cm0 = al_get(meta, c)->0;
                                let cm1 = al_get(meta1, c)->0;
                                lemma_cmeta_grows_keys(cm0, cm1);
                            }
                        }
                    }
                }
                lemma_fold_locales_inv(input.drop_first(), st1, known);
            },
        }
    }
}

/// Growth includes the keys.
proof fn lemma_cmeta_grows_keys(a: Seq<(Seq<char>, Meta)>, b: Seq<(Seq<char>, Meta)>)
    requires
        cmeta_grows(a, b),
    ensures
        al_keys(a).subset_of(al_keys(b)),
{
    assert forall|k: Seq<char>| al_keys(a).contains(k) implies al_keys(b).contains(k) by {
        crate::alist::lemma_al_get_is_key(a, k);
        crate::alist::lemma_al_get_is_key(b, k);
    }
}

/// Field-set closure: after unification every locale's field table for a
/// category binds exactly the canonical keys of that category — so any two
/// locales sharing a category name expose the identical field-key set.
pub proof fn lemma_field_sets_identical(
    input: Seq<(Seq<char>, Seq<GObj>)>,
    g: GGen,
    li: int,
    cj: int,
)
    requires
        spec_unify(input) == Ok::<GGen, GSchemaErr>(g),
        0 <= li < g.by_language.len(),
        0 <= cj < g.by_language[li].1.len(),
        g.by_language[li].1[cj].1 is Fields,
    ensures
        al_get(g.field_metadata, g.by_language[li].1[cj].0) is Some,
        al_keys(g.by_language[li].1[cj].1->Fields_0) == al_keys(
            al_get(g.field_metadata, g.by_language[li].1[cj].0)->0,
        ),
{
    let st0 = UState {
        by_language: Seq::empty(),
        field_metadata: Seq::empty(),
        normalized_langs: Seq::empty(),
    };
    let known = crate::schema::known_locales(input);
    lemma_fold_locales_inv(input, st0, known);
    let st = fold_locales(input, st0, known)->Ok_0;
    lemma_fill_all_closed(st.by_language, st.field_metadata, 0);
    let cats = g.by_language[li].1;
    crate::alist::lemma_al_get_at_index(cats, cj);
    assert(cats_closed(cats, g.field_metadata));
    assert(al_get(cats, cats[cj].0) == Some(cats[cj].1));
}

/// The field-key sets of two locales sharing a category name are identical.
pub proof fn lemma_field_sets_agree(
    input: Seq<(Seq<char>, Seq<GObj>)>,
    g: GGen,
    l1: int,
    c1: int,
    l2: int,
    c2: int,
)
    requires
        spec_unify(input) == Ok::<GGen, GSchemaErr>(g),
        0 <= l1 < g.by_language.len(),
        0 <= c1 < g.by_language[l1].1.len(),
        0 <= l2 < g.by_language.len(),
        0 <= c2 < g.by_language[l2].1.len(),
        g.by_language[l1].1[c1].1 is Fields,
        g.by_language[l2].1[c2].1 is Fields,
        g.by_language[l1].1[c1].0 == g.by_language[l2].1[c2].0,
    ensures
        al_keys(g.by_language[l1].1[c1].1->Fields_0) == al_keys(
            g.by_language[l2].1[c2].1->Fields_0,
        ),
{
    lemma_field_sets_identical(input, g, l1, c1);
    lemma_field_sets_identical(input, g, l2, c2);
}

// ---------------------------------------------------------------------------
// Canonical ordering
// ---------------------------------------------------------------------------

proof fn lemma_fold_locales_nl_sorted(
    input: Seq<(Seq<char>, Seq<GObj>)>,
    st: UState,
    known: Set<Seq<char>>,
)
    requires
        al_sorted(st.normalized_langs),
    ensures
        fold_locales(input, st, known) matches Ok(st2) ==> al_sorted(st2.normalized_langs),
    decreases input.len(),
{
    if input.len() > 0 {
        let (lang, objs) = input[0];
        match fold_objects(lang, objs, Seq::empty(), st.field_metadata, known) {
            Err(_) => {},
            Ok((cats, meta1)) => {
                crate::alist::lemma_al_insert_sorted(
                    st.normalized_langs,
                    lang,
                    crate::schema::norm_at(lang),
                );
                let st1 = UState {
                    by_language: al_insert(st.by_language, lang, cats),
                    field_metadata: meta1,
                    normalized_langs: al_insert(
                        st.normalized_langs,
                        lang,
                        crate::schema::norm_at(lang),
                    ),
                };
                lemma_fold_locales_nl_sorted(input.drop_first(), st1, known);
            },
        }
    }
}

/// The output is in canonical order: every table — locales, categories,
/// fields, metadata, normalized names — is sorted by key, so iterating it
/// is deterministic by construction.
pub proof fn lemma_unify_canonical_order(input: Seq<(Seq<char>, Seq<GObj>)>, g: GGen)
    requires
        spec_unify(input) == Ok::<GGen, GSchemaErr>(g),
    ensures
        al_sorted(g.by_language),
        forall|i: int| 0 <= i < g.by_language.len() ==> al_sorted((#[trigger] g.by_language[i]).1),
        al_sorted(g.field_metadata),
        forall|i: int|
            0 <= i < g.field_metadata.len() ==> al_sorted((#[trigger] g.field_metadata[i]).1),
        al_sorted(g.normalized_langs),
{
    let st0 = UState {
        by_language: Seq::empty(),
        field_metadata: Seq::empty(),
        normalized_langs: Seq::empty(),
    };
    let known = crate::schema::known_locales(input);
    lemma_fold_locales_inv(input, st0, known);
    lemma_fold_locales_nl_sorted(input, st0, known);
    let st = fold_locales(input, st0, known)->Ok_0;
    lemma_fill_all_closed(st.by_language, st.field_metadata, 0);
    lemma_fill_all_shape(st.by_language, st.field_metadata, 0);
    let (bl1, mt1) = fill_all(st.by_language, st.field_metadata, 0);
    assert(al_sorted(bl1)) by {
        assert(forall|a: int, b: int|
            0 <= a < b < bl1.len() ==> bl1[a].0 == st.by_language[a].0 && bl1[b].0
                == st.by_language[b].0);
    }
    assert(al_sorted(mt1)) by {
        assert(forall|a: int, b: int|
            0 <= a < b < mt1.len() ==> mt1[a].0 == st.field_metadata[a].0 && mt1[b].0
                == st.field_metadata[b].0);
    }
    assert forall|i: int| 0 <= i < mt1.len() implies al_sorted((#[trigger] mt1[i]).1) by {
        assert(cmeta_same_shape(st.field_metadata[i].1, mt1[i].1));
        assert(al_sorted(st.field_metadata[i].1));
        assert(forall|a: int, b: int|
            0 <= a < b < mt1[i].1.len() ==> mt1[i].1[a].0 == st.field_metadata[i].1[a].0
                && mt1[i].1[b].0 == st.field_metadata[i].1[b].0);
    }
}

} // verus!
