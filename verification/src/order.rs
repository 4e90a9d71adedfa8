//! Lexicographic order on character sequences.
//!
//! Locale names and field keys are kept in sorted association lists so that
//! every pass over them runs in one fixed total order; this module supplies
//! the order itself, as a spec function with a matching executable compare.

use vstd::prelude::*;
use vstd::string::StrSliceExecFns;

verus! {

/// Strict lexicographic order on sequences of characters, by code point.
pub open spec fn str_lt(a: Seq<char>, b: Seq<char>) -> bool
    decreases a.len(),
{
    if b.len() == 0 {
        false
    } else if a.len() == 0 {
        true
    } else if (a[0] as u32) < (b[0] as u32) {
        true
    } else if (a[0] as u32) > (b[0] as u32) {
        false
    } else {
        str_lt(a.drop_first(), b.drop_first())
    }
}

/// The order is total: two sequences compare one way, the other, or are equal.
pub proof fn lemma_str_lt_total(a: Seq<char>, b: Seq<char>)
    ensures
        str_lt(a, b) || str_lt(b, a) || a == b,
    decreases a.len(),
{
    if a.len() != 0 && b.len() != 0 && !str_lt(a, b) && !str_lt(b, a) {
        lemma_str_lt_total(a.drop_first(), b.drop_first());
        if a.drop_first() == b.drop_first() {
            vstd::utf8::char_u32_cast(a[0], a[0] as u32);
            vstd::utf8::char_u32_cast(b[0], b[0] as u32);
            assert(a[0] == b[0]);
            assert(a =~= seq![a[0]] + a.drop_first());
            assert(b =~= seq![b[0]] + b.drop_first());
        }
    } else if a.len() == 0 && b.len() == 0 {
        assert(a =~= b);
    }
}

/// The order is irreflexive and asymmetric.
pub proof fn lemma_str_lt_asymmetric(a: Seq<char>, b: Seq<char>)
    ensures
        str_lt(a, b) ==> !str_lt(b, a),
        !str_lt(a, a),
    decreases a.len(),
{
    if a.len() != 0 && b.len() != 0 {
        lemma_str_lt_asymmetric(a.drop_first(), b.drop_first());
    }
    if a.len() != 0 {
        lemma_str_lt_asymmetric(a.drop_first(), a.drop_first());
    }
}

/// The order is transitive.
pub proof fn lemma_str_lt_transitive(a: Seq<char>, b: Seq<char>, c: Seq<char>)
    ensures
        str_lt(a, b) && str_lt(b, c) ==> str_lt(a, c),
    decreases a.len(),
{
    if a.len() != 0 && b.len() != 0 && c.len() != 0 {
        lemma_str_lt_transitive(a.drop_first(), b.drop_first(), c.drop_first());
    }
}

/// Three-way comparison result for character sequences.
#[derive(Clone, Copy, PartialEq, Eq, Structural)]
pub enum StrOrd {
    Less,
    Equal,
    Greater,
}

/// Compares two strings in the lexicographic order of `str_lt`.
pub fn str_compare(a: &str, b: &str) -> (r: StrOrd)
    ensures
        r == StrOrd::Less ==> str_lt(a@, b@),
        r == StrOrd::Greater ==> str_lt(b@, a@),
        r == StrOrd::Equal ==> a@ == b@,
{
    let a_len = a.unicode_len();
    let b_len = b.unicode_len();
    let mut i: usize = 0;
    loop
        invariant
            i <= a_len,
            i <= b_len,
            a_len == a@.len(),
            b_len == b@.len(),
            forall|k: int| 0 <= k < i ==> a@[k] == b@[k],
        decreases a_len - i,
    {
        if i == a_len && i == b_len {
            proof {
                assert(a@ =~= b@);
            }
            return StrOrd::Equal;
        }
        if i == a_len {
            proof {
                lemma_common_prefix_lt(a@, b@, i as int);
            }
            return StrOrd::Less;
        }
        if i == b_len {
            proof {
                lemma_common_prefix_lt(b@, a@, i as int);
            }
            return StrOrd::Greater;
        }
        let ca = a.get_char(i);
        let cb = b.get_char(i);
        if (ca as u32) < (cb as u32) {
            proof {
                lemma_common_prefix_lt(a@, b@, i as int);
            }
            return StrOrd::Less;
        }
        if (ca as u32) > (cb as u32) {
            proof {
                lemma_common_prefix_lt(b@, a@, i as int);
            }
            return StrOrd::Greater;
        }
        proof {
            vstd::utf8::char_u32_cast(ca, ca as u32);
            vstd::utf8::char_u32_cast(cb, cb as u32);
            assert(ca == cb);
        }
        i = i + 1;
    }
}

/// After a common prefix of length `i`, either `a` ends or its next character
/// is smaller: then `a` comes first in the order.
proof fn lemma_common_prefix_lt(a: Seq<char>, b: Seq<char>, i: int)
    requires
        0 <= i <= a.len(),
        i <= b.len(),
        forall|k: int| 0 <= k < i ==> a[k] == b[k],
        i < b.len(),
        i == a.len() || (a[i] as u32) < (b[i] as u32),
    ensures
        str_lt(a, b),
    decreases i,
{
    if i == 0 {
        if a.len() != 0 {
            assert((a[0] as u32) < (b[0] as u32));
        }
    } else {
        assert(a[0] == b[0]);
        lemma_common_prefix_lt(a.drop_first(), b.drop_first(), i - 1);
        assert(!((a[0] as u32) < (b[0] as u32)) && !((a[0] as u32) > (b[0] as u32))) by {
            vstd::utf8::char_u32_cast(a[0], a[0] as u32);
            vstd::utf8::char_u32_cast(b[0], b[0] as u32);
        }
    }
}

} // verus!
