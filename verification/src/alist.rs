//! Association lists sorted by string key.
//!
//! The unifier keeps every table (locales, categories, fields) as a vector of
//! `(String, value)` pairs in strictly ascending key order, so that iteration
//! is always in one fixed total order.  At the spec level such a table is a
//! `Seq<(Seq<char>, W)>`; this module defines lookup and insertion over that
//! model and the executable operations that realise them.

use vstd::prelude::*;

use crate::order::{str_compare, str_lt, StrOrd};

verus! {

/// The keys are strictly ascending: each key occurs at most once.
pub open spec fn al_sorted<W>(m: Seq<(Seq<char>, W)>) -> bool {
    forall|i: int, j: int| 0 <= i < j < m.len() ==> str_lt(m[i].0, m[j].0)
}

/// The value at `k`: the first binding with that key, if any.
pub open spec fn al_get<W>(m: Seq<(Seq<char>, W)>, k: Seq<char>) -> Option<W>
    decreases m.len(),
{
    if m.len() == 0 {
        None
    } else if m[0].0 == k {
        Some(m[0].1)
    } else {
        al_get(m.drop_first(), k)
    }
}

/// `m` with `k` bound to `v`: replaces an existing binding, otherwise inserts
/// at the position the key order assigns.
pub open spec fn al_insert<W>(m: Seq<(Seq<char>, W)>, k: Seq<char>, v: W) -> Seq<(Seq<char>, W)>
    decreases m.len(),
{
    if m.len() == 0 {
        seq![(k, v)]
    } else if str_lt(k, m[0].0) {
        seq![(k, v)] + m
    } else if k == m[0].0 {
        seq![(k, v)] + m.drop_first()
    } else {
        seq![m[0]] + al_insert(m.drop_first(), k, v)
    }
}

/// The set of keys bound in `m`.
pub open spec fn al_keys<W>(m: Seq<(Seq<char>, W)>) -> Set<Seq<char>> {
    Set::new(|k: Seq<char>| exists|i: int| 0 <= i < m.len() && m[i].0 == k)
}

pub proof fn lemma_al_get_is_key<W>(m: Seq<(Seq<char>, W)>, k: Seq<char>)
    ensures
        al_get(m, k) is Some <==> al_keys(m).contains(k),
    decreases m.len(),
{
    if m.len() > 0 && m[0].0 != k {
        lemma_al_get_is_key(m.drop_first(), k);
        assert(al_keys(m.drop_first()).contains(k) ==> al_keys(m).contains(k)) by {
            if al_keys(m.drop_first()).contains(k) {
                let i = choose|i: int|
                    0 <= i < m.drop_first().len() && m.drop_first()[i].0 == k;
                assert(m[i + 1].0 == k);
            }
        }
        assert(al_keys(m).contains(k) ==> al_keys(m.drop_first()).contains(k)) by {
            if al_keys(m).contains(k) {
                let i = choose|i: int| 0 <= i < m.len() && m[i].0 == k;
                assert(m.drop_first()[i - 1].0 == k);
            }
        }
    }
}

/// Insertion keeps the keys strictly ascending.
pub proof fn lemma_al_insert_sorted<W>(m: Seq<(Seq<char>, W)>, k: Seq<char>, v: W)
    requires
        al_sorted(m),
    ensures
        al_sorted(al_insert(m, k, v)),
        al_keys(al_insert(m, k, v)) =~= al_keys(m).insert(k),
    decreases m.len(),
{
    crate::order::lemma_str_lt_asymmetric(k, if m.len() > 0 { m[0].0 } else { k });
    if m.len() == 0 {
        assert forall|x: Seq<char>| al_keys(al_insert(m, k, v)).contains(x)
            <==> al_keys(m).insert(k).contains(x) by {
            if al_keys(m).insert(k).contains(x) {
                assert(al_insert(m, k, v)[0].0 == k);
            }
        }
    } else if str_lt(k, m[0].0) {
        let r = seq![(k, v)] + m;
        assert forall|i: int, j: int| 0 <= i < j < r.len() implies str_lt(r[i].0, r[j].0) by {
            if i == 0 {
                if j > 1 {
                    crate::order::lemma_str_lt_transitive(k, m[0].0, m[j - 1].0);
                }
            }
        }
        assert forall|x: Seq<char>| al_keys(r).contains(x) <==> al_keys(m).insert(k).contains(x) by {
            if al_keys(r).contains(x) {
                let i = choose|i: int| 0 <= i < r.len() && r[i].0 == x;
                if i > 0 {
                    assert(m[i - 1].0 == x);
                }
            }
            if al_keys(m).insert(k).contains(x) {
                if x == k {
                    assert(r[0].0 == x);
                } else {
                    let i = choose|i: int| 0 <= i < m.len() && m[i].0 == x;
                    assert(r[i + 1].0 == x);
                }
            }
        }
    } else if k == m[0].0 {
        let r = seq![(k, v)] + m.drop_first();
        assert forall|i: int, j: int| 0 <= i < j < r.len() implies str_lt(r[i].0, r[j].0) by {
            assert(m.drop_first()[j - 1] == m[j]);
            if i > 0 {
                assert(m.drop_first()[i - 1] == m[i]);
            }
        }
        assert forall|x: Seq<char>| al_keys(r).contains(x) <==> al_keys(m).insert(k).contains(x) by {
            if al_keys(r).contains(x) {
                let i = choose|i: int| 0 <= i < r.len() && r[i].0 == x;
                if i == 0 {
                    assert(m[0].0 == x);
                } else {
                    assert(m[i].0 == x);
                }
            }
            if al_keys(m).insert(k).contains(x) {
                if x == k {
                    assert(r[0].0 == x);
                } else {
                    let i = choose|i: int| 0 <= i < m.len() && m[i].0 == x;
                    assert(i != 0);
                    assert(r[i].0 == x);
                }
            }
        }
    } else {
        crate::order::lemma_str_lt_total(k, m[0].0);
        lemma_al_insert_sorted(m.drop_first(), k, v);
        let t = al_insert(m.drop_first(), k, v);
        let r = seq![m[0]] + t;
        assert forall|i: int, j: int| 0 <= i < j < r.len() implies str_lt(r[i].0, r[j].0) by {
            if i == 0 {
                assert(al_keys(t).contains(r[j].0)) by {
                    assert(t[j - 1].0 == r[j].0);
                }
                assert(al_keys(m.drop_first()).insert(k).contains(r[j].0));
                if r[j].0 == k {
                    assert(str_lt(m[0].0, k));
                } else {
                    let q = choose|q: int|
                        0 <= q < m.drop_first().len() && m.drop_first()[q].0 == r[j].0;
                    assert(m[q + 1].0 == r[j].0);
                    assert(str_lt(m[0].0, m[q + 1].0));
                }
            } else {
                assert(str_lt(t[i - 1].0, t[j - 1].0));
            }
        }
        assert forall|x: Seq<char>| al_keys(r).contains(x) <==> al_keys(m).insert(k).contains(x) by {
            if al_keys(r).contains(x) {
                let i = choose|i: int| 0 <= i < r.len() && r[i].0 == x;
                if i == 0 {
                    assert(m[0].0 == x);
                } else {
                    assert(al_keys(t).contains(x)) by {
                        assert(t[i - 1].0 == x);
                    }
                    if x != k {
                        let q = choose|q: int|
                            0 <= q < m.drop_first().len() && m.drop_first()[q].0 == x;
                        assert(m[q + 1].0 == x);
                    }
                }
            }
            if al_keys(m).insert(k).contains(x) {
                if x == m[0].0 {
                    assert(r[0].0 == x);
                } else {
                    assert(al_keys(t).contains(x)) by {
                        if x == k {
                        } else {
                            let q = choose|q: int| 0 <= q < m.len() && m[q].0 == x;
                            assert(q != 0);
                            assert(m.drop_first()[q - 1].0 == x);
                            assert(al_keys(m.drop_first()).contains(x));
                        }
                        assert(al_keys(m.drop_first()).insert(k).contains(x));
                    }
                    let q = choose|q: int| 0 <= q < t.len() && t[q].0 == x;
                    assert(r[q + 1].0 == x);
                }
            }
        }
    }
}

/// What lookup returns after an insertion.
pub proof fn lemma_al_get_insert<W>(m: Seq<(Seq<char>, W)>, k: Seq<char>, v: W, k2: Seq<char>)
    ensures
        al_get(al_insert(m, k, v), k2) == if k2 == k {
            Some(v)
        } else {
            al_get(m, k2)
        },
    decreases m.len(),
{
    if m.len() == 0 {
        let r = al_insert(m, k, v);
        assert(r[0] == (k, v));
        assert(r.drop_first() =~= Seq::<(Seq<char>, W)>::empty());
    } else if str_lt(k, m[0].0) {
        let r = seq![(k, v)] + m;
        assert(r[0] == (k, v));
        assert(r.drop_first() =~= m);
        crate::order::lemma_str_lt_asymmetric(k, m[0].0);
        if k2 == k {
            assert(al_get(r, k2) == Some(v));
        }
    } else if k == m[0].0 {
        let r = seq![(k, v)] + m.drop_first();
        assert(r[0] == (k, v));
        assert(r.drop_first() =~= m.drop_first());
    } else {
        lemma_al_get_insert(m.drop_first(), k, v, k2);
        let r = seq![m[0]] + al_insert(m.drop_first(), k, v);
        assert(r[0] == m[0]);
        assert(r.drop_first() =~= al_insert(m.drop_first(), k, v));
    }
}

/// Finds the binding of `k`, scanning in order; returns its index.
pub fn al_find<V: DeepView>(m: &Vec<(String, V)>, k: &str) -> (r: Option<usize>)
    ensures
        match r {
            Some(i) => {
                &&& i < m.len()
                &&& m@[i as int].0@ == k@
                &&& al_get(m.deep_view(), k@) == Some(m@[i as int].1.deep_view())
            },
            None => al_get(m.deep_view(), k@) is None,
        },
{
    let n = m.len();
    let mut i: usize = 0;
    proof {
        assert(m.deep_view().skip(0) =~= m.deep_view());
    }
    while i < n
        invariant
            i <= n,
            n == m.len(),
            al_get(m.deep_view().skip(i as int), k@) == al_get(m.deep_view(), k@),
            forall|j: int| 0 <= j < i ==> m@[j].0@ != k@,
        decreases n - i,
    {
        let ord = str_compare(m[i].0.as_str(), k);
        proof {
            assert(m.deep_view().skip(i as int)[0] == (m@[i as int].0@, m@[i as int].1.deep_view()));
        }
        if matches!(ord, StrOrd::Equal) {
            return Some(i);
        }
        proof {
            crate::order::lemma_str_lt_asymmetric(m@[i as int].0@, k@);
            assert(m.deep_view().skip(i as int).drop_first() =~= m.deep_view().skip(i + 1));
        }
        i = i + 1;
    }
    proof {
        assert(m.deep_view().skip(n as int) =~= Seq::<(Seq<char>, V::V)>::empty());
    }
    None
}

/// Binds `k` to `v`, keeping the list sorted.
pub fn al_set<V: DeepView>(m: &mut Vec<(String, V)>, k: String, v: V)
    requires
        al_sorted(old(m).deep_view()),
    ensures
        final(m).deep_view() == al_insert(old(m).deep_view(), k@, v.deep_view()),
        al_sorted(final(m).deep_view()),
{
    proof {
        lemma_al_insert_sorted(m.deep_view(), k@, v.deep_view());
    }
    let ghost m0 = m.deep_view();
    let n = m.len();
    let mut i: usize = 0;
    while i < n
        invariant
            i <= n,
            n == m.len(),
            m.deep_view() == m0,
            m0 == old(m).deep_view(),
            al_sorted(m0),
            forall|j: int| 0 <= j < i ==> str_lt(m0[j].0, k@),
        decreases n - i,
    {
        let ord = str_compare(m[i].0.as_str(), k.as_str());
        match ord {
            StrOrd::Less => {
                i = i + 1;
            },
            StrOrd::Equal => {
                proof {
                    crate::order::lemma_str_lt_asymmetric(m0[i as int].0, k@);
                    lemma_al_insert_prefix(m0, k@, v.deep_view(), i as int);
                    lemma_al_insert_sorted(m0, k@, v.deep_view());
                }
                let _old = m.remove(i);
                m.insert(i, (k, v));
                proof {
                    assert(m.deep_view() =~= al_insert(m0, k@, v.deep_view()));
                }
                return ;
            },
            StrOrd::Greater => {
                proof {
                    crate::order::lemma_str_lt_asymmetric(k@, m0[i as int].0);
                    lemma_al_insert_prefix(m0, k@, v.deep_view(), i as int);
                    lemma_al_insert_sorted(m0, k@, v.deep_view());
                }
                m.insert(i, (k, v));
                proof {
                    assert(m.deep_view() =~= al_insert(m0, k@, v.deep_view()));
                }
                return ;
            },
        }
    }
    proof {
        lemma_al_insert_prefix(m0, k@, v.deep_view(), n as int);
    }
    m.push((k, v));
    proof {
        assert(m.deep_view() =~= al_insert(m0, k@, v.deep_view()));
    }
}

/// Where the first `i` keys are below `k`, insertion leaves them in place and
/// acts at position `i`.
proof fn lemma_al_insert_prefix<W>(m: Seq<(Seq<char>, W)>, k: Seq<char>, v: W, i: int)
    requires
        al_sorted(m),
        0 <= i <= m.len(),
        forall|j: int| 0 <= j < i ==> str_lt(m[j].0, k),
        i < m.len() ==> !str_lt(m[i].0, k),
    ensures
        i < m.len() && m[i].0 == k ==> al_insert(m, k, v) == m.update(i, (k, v)),
        i < m.len() && m[i].0 != k ==> al_insert(m, k, v) == m.subrange(0, i) + seq![(k, v)]
            + m.subrange(i, m.len() as int),
        i == m.len() ==> al_insert(m, k, v) == m + seq![(k, v)],
    decreases m.len(),
{
    if m.len() == 0 {
        assert(al_insert(m, k, v) =~= m + seq![(k, v)]);
    } else if i == 0 {
        if m[0].0 == k {
            assert(al_insert(m, k, v) =~= m.update(0, (k, v)));
        } else {
            crate::order::lemma_str_lt_total(k, m[0].0);
            assert(str_lt(k, m[0].0));
            assert(al_insert(m, k, v) =~= m.subrange(0, 0) + seq![(k, v)] + m.subrange(
                0,
                m.len() as int,
            ));
        }
    } else {
        crate::order::lemma_str_lt_asymmetric(m[0].0, k);
        let t = m.drop_first();
        lemma_al_insert_prefix(t, k, v, i - 1);
        assert(forall|j: int| 0 <= j < i - 1 ==> t[j] == m[j + 1]);
        assert(i - 1 < t.len() ==> t[i - 1] == m[i]);
        if i < m.len() && m[i].0 == k {
            assert(al_insert(m, k, v) =~= m.update(i, (k, v)));
        } else if i < m.len() {
            assert(al_insert(m, k, v) =~= m.subrange(0, i) + seq![(k, v)] + m.subrange(
                i,
                m.len() as int,
            ));
        } else {
            assert(al_insert(m, k, v) =~= m + seq![(k, v)]);
        }
    }
}

/// Replacing the value at an existing key is a positional update.
pub proof fn lemma_al_remove_insert<W>(m: Seq<(Seq<char>, W)>, i: int, v: W)
    requires
        al_sorted(m),
        0 <= i < m.len(),
    ensures
        al_insert(m, m[i].0, v) == m.update(i, (m[i].0, v)),
        al_sorted(m.update(i, (m[i].0, v))),
{
    assert forall|j: int| 0 <= j < i implies str_lt(m[j].0, m[i].0) by {}
    crate::order::lemma_str_lt_asymmetric(m[i].0, m[i].0);
    lemma_al_insert_prefix(m, m[i].0, v, i);
    assert forall|a: int, b: int| 0 <= a < b < m.len() implies str_lt(
        m.update(i, (m[i].0, v))[a].0,
        m.update(i, (m[i].0, v))[b].0,
    ) by {
        assert(m.update(i, (m[i].0, v))[a].0 == m[a].0);
        assert(m.update(i, (m[i].0, v))[b].0 == m[b].0);
    }
}

/// Every binding after an insertion is either the new one or one of the old
/// ones.
pub proof fn lemma_al_insert_values<W>(m: Seq<(Seq<char>, W)>, k: Seq<char>, v: W)
    ensures
        forall|j: int| 0 <= j < al_insert(m, k, v).len() ==> #[trigger] al_insert(m, k, v)[j]
            == (k, v) || exists|l: int| 0 <= l < m.len() && m[l] == al_insert(m, k, v)[j],
    decreases m.len(),
{
    let r = al_insert(m, k, v);
    if m.len() == 0 {
    } else if str_lt(k, m[0].0) {
        assert forall|j: int| 0 <= j < r.len() implies r[j] == (k, v) || exists|l: int|
            0 <= l < m.len() && m[l] == r[j] by {
            if j > 0 {
                assert(m[j - 1] == r[j]);
            }
        }
    } else if k == m[0].0 {
        assert forall|j: int| 0 <= j < r.len() implies r[j] == (k, v) || exists|l: int|
            0 <= l < m.len() && m[l] == r[j] by {
            if j > 0 {
                assert(m[j] == r[j]);
            }
        }
    } else {
        lemma_al_insert_values(m.drop_first(), k, v);
        let t = al_insert(m.drop_first(), k, v);
        assert forall|j: int| 0 <= j < r.len() implies r[j] == (k, v) || exists|l: int|
            0 <= l < m.len() && m[l] == r[j] by {
            if j == 0 {
                assert(m[0] == r[0]);
            } else {
                assert(t[j - 1] == r[j]);
                if t[j - 1] == (k, v) {
                } else {
                    let l = choose|l: int|
                        0 <= l < m.drop_first().len() && m.drop_first()[l] == t[j - 1];
                    assert(m[l + 1] == r[j]);
                }
            }
        }
    }
}

/// Insertion binds exactly the old keys plus the new one, sorted or not.
pub proof fn lemma_al_insert_keys_any<W>(m: Seq<(Seq<char>, W)>, k: Seq<char>, v: W)
    ensures
        al_keys(al_insert(m, k, v)) =~= al_keys(m).insert(k),
    decreases m.len(),
{
    let r = al_insert(m, k, v);
    if m.len() == 0 {
        assert forall|x: Seq<char>| al_keys(r).contains(x) <==> al_keys(m).insert(k).contains(x) by {
            if al_keys(m).insert(k).contains(x) {
                assert(r[0].0 == k);
            }
        }
    } else if str_lt(k, m[0].0) {
        assert forall|x: Seq<char>| al_keys(r).contains(x) <==> al_keys(m).insert(k).contains(x) by {
            if al_keys(r).contains(x) {
                let i = choose|i: int| 0 <= i < r.len() && r[i].0 == x;
                if i > 0 {
                    assert(m[i - 1].0 == x);
                }
            }
            if al_keys(m).insert(k).contains(x) {
                if x == k {
                    assert(r[0].0 == x);
                } else {
                    let i = choose|i: int| 0 <= i < m.len() && m[i].0 == x;
                    assert(r[i + 1].0 == x);
                }
            }
        }
    } else if k == m[0].0 {
        assert forall|x: Seq<char>| al_keys(r).contains(x) <==> al_keys(m).insert(k).contains(x) by {
            if al_keys(r).contains(x) {
                let i = choose|i: int| 0 <= i < r.len() && r[i].0 == x;
                if i == 0 {
                    assert(m[0].0 == x);
                } else {
                    assert(m[i].0 == x);
                }
            }
            if al_keys(m).insert(k).contains(x) {
                if x == k {
                    assert(r[0].0 == x);
                } else {
                    let i = choose|i: int| 0 <= i < m.len() && m[i].0 == x;
                    if i == 0 {
                        assert(r[0].0 == x);
                    } else {
                        assert(r[i].0 == x);
                    }
                }
            }
        }
    } else {
        lemma_al_insert_keys_any(m.drop_first(), k, v);
        let t = al_insert(m.drop_first(), k, v);
        assert forall|x: Seq<char>| al_keys(r).contains(x) <==> al_keys(m).insert(k).contains(x) by {
            if al_keys(r).contains(x) {
                let i = choose|i: int| 0 <= i < r.len() && r[i].0 == x;
                if i == 0 {
                    assert(m[0].0 == x);
                } else {
                    assert(t[i - 1].0 == x);
                    assert(al_keys(t).contains(x));
                    assert(al_keys(m.drop_first()).insert(k).contains(x));
                    if x != k {
                        let q = choose|q: int|
                            0 <= q < m.drop_first().len() && m.drop_first()[q].0 == x;
                        assert(m[q + 1].0 == x);
                    }
                }
            }
            if al_keys(m).insert(k).contains(x) {
                if x == m[0].0 {
                    assert(r[0].0 == x);
                } else {
                    assert(al_keys(t).contains(x)) by {
                        if x != k {
                            let q = choose|q: int| 0 <= q < m.len() && m[q].0 == x;
                            assert(q != 0);
                            assert(m.drop_first()[q - 1].0 == x);
                            assert(al_keys(m.drop_first()).contains(x));
                        }
                        assert(al_keys(m.drop_first()).insert(k).contains(x));
                    }
                    let q = choose|q: int| 0 <= q < t.len() && t[q].0 == x;
                    assert(r[q + 1].0 == x);
                }
            }
        }
    }
}

/// In a sorted list, lookup at an entry's key returns that entry.
pub proof fn lemma_al_get_at_index<W>(m: Seq<(Seq<char>, W)>, j: int)
    requires
        al_sorted(m),
        0 <= j < m.len(),
    ensures
        al_get(m, m[j].0) == Some(m[j].1),
    decreases j,
{
    if j == 0 {
    } else {
        crate::order::lemma_str_lt_asymmetric(m[0].0, m[j].0);
        assert(m[0].0 != m[j].0);
        assert(al_sorted(m.drop_first())) by {
            assert(forall|a: int, b: int|
                0 <= a < b < m.drop_first().len() ==> m.drop_first()[a] == m[a + 1]
                    && m.drop_first()[b] == m[b + 1]);
        }
        lemma_al_get_at_index(m.drop_first(), j - 1);
        assert(m.drop_first()[j - 1] == m[j]);
    }
}

/// Lookup after a positional update that keeps the key.
pub proof fn lemma_al_get_update<W>(m: Seq<(Seq<char>, W)>, i: int, v: W, c: Seq<char>)
    requires
        al_sorted(m),
        0 <= i < m.len(),
    ensures
        al_get(m.update(i, (m[i].0, v)), c) == if c == m[i].0 {
            Some(v)
        } else {
            al_get(m, c)
        },
{
    lemma_al_remove_insert(m, i, v);
    lemma_al_get_insert(m, m[i].0, v, c);
}

/// Lists with the same keys in the same positions bind the same key set.
pub proof fn lemma_al_keys_pointwise<V, W>(a: Seq<(Seq<char>, V)>, b: Seq<(Seq<char>, W)>)
    requires
        a.len() == b.len(),
        forall|j: int| 0 <= j < a.len() ==> (#[trigger] b[j]).0 == a[j].0,
    ensures
        al_keys(a) =~= al_keys(b),
{
    assert forall|x: Seq<char>| al_keys(a).contains(x) <==> al_keys(b).contains(x) by {
        if al_keys(a).contains(x) {
            let i = choose|i: int| 0 <= i < a.len() && a[i].0 == x;
            assert(b[i].0 == x);
        }
        if al_keys(b).contains(x) {
            let i = choose|i: int| 0 <= i < b.len() && b[i].0 == x;
            assert(a[i].0 == x);
        }
    }
}

} // verus!
