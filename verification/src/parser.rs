//! The locale source parser.
//!
//! Recursive descent over a vector of characters, one function per grammar
//! production.  Each function is proved to return exactly what the
//! corresponding spec function in [`crate::grammar`] says: the same end
//! position and the same value on success, and failure of the same kind
//! (recoverable or hard) otherwise.

use vstd::prelude::*;

use crate::chars::{char_from_u32, string_of, string_range, to_chars};
use crate::grammar::{
    dec_val, flatten_opts, hex_val, int_lit_val, is_int_literal, lit_at, lit_comment_char,
    lit_escape_char, lit_undefined, pred_alpha, pred_head_char, pred_hex_digit,
    pred_inline_comment, pred_int_char, pred_key_char, pred_not_gt,
    pred_not_line_end, pred_space, scan, spec_key, spec_key_value, spec_key_values, spec_kv_sep_end,
    spec_multispace0, spec_object, spec_objects, spec_one_special, spec_opt_value, spec_parse, spec_vlist_tail,
    spec_parse_lang, spec_raw, spec_raw_parts, spec_sp, spec_sp_comment, spec_special_chars,
    spec_string, spec_string_body, spec_uescape, spec_value, spec_value_list, GObj, GVal, POut,
};

verus! {

/// A parsed value: an unquoted token, a quoted string, or an integer.
#[derive(Debug, Clone, PartialEq)]
pub enum Value {
    Raw(String),
    String(String),
    Integer(i64),
}

impl DeepView for Value {
    type V = GVal;

    open spec fn deep_view(&self) -> GVal {
        match self {
            Value::Raw(s) => GVal::Raw(s@),
            Value::String(s) => GVal::Str(s@),
            Value::Integer(n) => GVal::Int(*n as int),
        }
    }
}

impl Value {
    /// The type tag used by the unifier: textual values are `0`, integers
    /// are `1`.
    pub fn type_tag(&self) -> (r: u8)
        ensures
            r == spec_type_tag(self.deep_view()),
    {
        match self {
            Value::Raw(_) => 0,
            Value::String(_) => 0,
            Value::Integer(_) => 1,
        }
    }
}

/// The type tag of a value: textual or integer.
pub open spec fn spec_type_tag(v: GVal) -> u8 {
    match v {
        GVal::Raw(_) => 0,
        GVal::Str(_) => 0,
        GVal::Int(_) => 1,
    }
}

/// A parsed category: its name and its keyed value runs, in source order.
#[derive(Debug, Clone, PartialEq)]
pub struct Object {
    pub name: String,
    pub values: Vec<(String, Vec<Value>)>,
}

impl DeepView for Object {
    type V = GObj;

    open spec fn deep_view(&self) -> GObj {
        GObj { name: self.name@, runs: self.values.deep_view() }
    }
}

/// Why a file was rejected, and roughly where.
#[derive(Debug, Clone, Copy, PartialEq, Eq, Structural)]
pub enum ParseErrorKind {
    /// The input ended inside a quoted string.
    UnterminatedString,
    /// A `<` inside a quoted string did not begin a valid `<Uhhhh>` escape,
    /// or the escape named a code point that is not a character.
    InvalidUnicodeEscape,
    /// An integer literal does not fit in 64 bits.
    IntegerOverflow,
    /// Text after the last category (or in place of one) that is not
    /// whitespace or comment; a category closed by a tag naming a different
    /// category surfaces here, at the category's start.
    TrailingContent,
}

/// A parse failure: the whole file is rejected.  `pos` is the approximate
/// character position at which the offending text begins.
#[derive(Debug, Clone, Copy, PartialEq)]
pub struct ParseError {
    pub pos: usize,
    pub kind: ParseErrorKind,
}

/// Internal failure: recoverable (another alternative may apply) or hard.
enum PFail {
    Soft,
    Hard(ParseError),
}

// ---------------------------------------------------------------------------
// Scanners: one executable loop per predicate handed to `scan`
// ---------------------------------------------------------------------------

fn scan_space(s: &Vec<char>, p: usize) -> (r: usize)
    requires
        p <= s@.len(),
    ensures
        r as int == scan(s@, p as int, pred_space()),
        p <= r <= s@.len(),
    decreases s@.len() - p,
{
    if p < s.len() {
        let c = s[p];
        if c == ' ' || c == '\t' {
            return scan_space(s, p + 1);
        }
    }
    p
}

fn scan_multispace(s: &Vec<char>, p: usize) -> (r: usize)
    requires
        p <= s@.len(),
    ensures
        r as int == spec_multispace0(s@, p as int),
        p <= r <= s@.len(),
    decreases s@.len() - p,
{
    if p < s.len() {
        let c = s[p];
        if c == ' ' || c == '\t' || c == '\n' || c == '\r' {
            return scan_multispace(s, p + 1);
        }
    }
    p
}

fn scan_line(s: &Vec<char>, p: usize) -> (r: usize)
    requires
        p <= s@.len(),
    ensures
        r as int == scan(s@, p as int, pred_not_line_end()),
        p <= r <= s@.len(),
    decreases s@.len() - p,
{
    if p < s.len() {
        let c = s[p];
        if !(c == '\n' || c == '\r') {
            return scan_line(s, p + 1);
        }
    }
    p
}

fn scan_inline_comment(s: &Vec<char>, p: usize, esc: char) -> (r: usize)
    requires
        p <= s@.len(),
    ensures
        r as int == scan(s@, p as int, pred_inline_comment(esc)),
        p <= r <= s@.len(),
    decreases s@.len() - p,
{
    if p < s.len() {
        let c = s[p];
        if !(c == '\n' || c == '\r') && c != esc {
            return scan_inline_comment(s, p + 1, esc);
        }
    }
    p
}

fn scan_key_chars(s: &Vec<char>, p: usize) -> (r: usize)
    requires
        p <= s@.len(),
    ensures
        r as int == scan(s@, p as int, pred_key_char()),
        p <= r <= s@.len(),
    decreases s@.len() - p,
{
    if p < s.len() {
        let c = s[p];
        let u = c as u32;
        if (97 <= u && u <= 122) || (48 <= u && u <= 57) || c == '_' || c == '-' {
            return scan_key_chars(s, p + 1);
        }
    }
    p
}

fn scan_head_chars(s: &Vec<char>, p: usize) -> (r: usize)
    requires
        p <= s@.len(),
    ensures
        r as int == scan(s@, p as int, pred_head_char()),
        p <= r <= s@.len(),
    decreases s@.len() - p,
{
    if p < s.len() {
        let c = s[p];
        let u = c as u32;
        if (65 <= u && u <= 90) || c == '_' {
            return scan_head_chars(s, p + 1);
        }
    }
    p
}

fn scan_int_chars(s: &Vec<char>, p: usize) -> (r: usize)
    requires
        p <= s@.len(),
    ensures
        r as int == scan(s@, p as int, pred_int_char()),
        p <= r <= s@.len(),
    decreases s@.len() - p,
{
    if p < s.len() {
        let c = s[p];
        let u = c as u32;
        if (48 <= u && u <= 57) || c == '-' {
            return scan_int_chars(s, p + 1);
        }
    }
    p
}

fn scan_hex_chars(s: &Vec<char>, p: usize) -> (r: usize)
    requires
        p <= s@.len(),
    ensures
        r as int == scan(s@, p as int, pred_hex_digit()),
        p <= r <= s@.len(),
    decreases s@.len() - p,
{
    if p < s.len() {
        let c = s[p];
        let u = c as u32;
        if (48 <= u && u <= 57) || (97 <= u && u <= 102) || (65 <= u && u <= 70) {
            return scan_hex_chars(s, p + 1);
        }
    }
    p
}

fn scan_alpha_chars(s: &Vec<char>, p: usize) -> (r: usize)
    requires
        p <= s@.len(),
    ensures
        r as int == scan(s@, p as int, pred_alpha()),
        p <= r <= s@.len(),
    decreases s@.len() - p,
{
    if p < s.len() {
        let c = s[p];
        let u = c as u32;
        if (65 <= u && u <= 90) || (97 <= u && u <= 122) {
            return scan_alpha_chars(s, p + 1);
        }
    }
    p
}

fn scan_not_gt(s: &Vec<char>, p: usize) -> (r: usize)
    requires
        p <= s@.len(),
    ensures
        r as int == scan(s@, p as int, pred_not_gt()),
        p <= r <= s@.len(),
    decreases s@.len() - p,
{
    if p < s.len() {
        let c = s[p];
        if c != '>' {
            return scan_not_gt(s, p + 1);
        }
    }
    p
}

/// Does the literal `lit` occur at `p`?
pub(crate) fn has_lit(s: &Vec<char>, p: usize, lit: &Vec<char>) -> (r: bool)
    requires
        p <= s@.len(),
    ensures
        r == lit_at(s@, p as int, lit@),
{
    let n = lit.len();
    let slen = s.len();
    if n > slen - p {
        proof {
            assert(!lit_at(s@, p as int, lit@));
        }
        return false;
    }
    let mut i: usize = 0;
    while i < n
        invariant
            i <= n,
            n == lit@.len(),
            slen == s@.len(),
            p + n <= slen,
            forall|k: int| 0 <= k < i ==> s@[p + k] == lit@[k],
        decreases n - i,
    {
        if s[p + i] != lit[i] {
            proof {
                assert(s@.subrange(p as int, p + n) != lit@) by {
                    assert(s@.subrange(p as int, p + n)[i as int] != lit@[i as int]);
                }
            }
            return false;
        }
        i = i + 1;
    }
    proof {
        assert(s@.subrange(p as int, p + n) =~= lit@);
    }
    true
}

// ---------------------------------------------------------------------------
// Skip rules
// ---------------------------------------------------------------------------

fn p_sp(s: &Vec<char>, p: usize, esc: char, com: char) -> (r: usize)
    requires
        p <= s@.len(),
    ensures
        r as int == spec_sp(s@, p as int, esc, com),
        p <= r <= s@.len(),
    decreases s@.len() - p,
{
    if p < s.len() {
        let c = s[p];
        if c == ' ' || c == '\t' {
            return p_sp(s, p + 1, esc, com);
        } else if c == com {
            let q = scan_inline_comment(s, p + 1, esc);
            return p_sp(s, q, esc, com);
        } else if c == esc && p + 1 < s.len() {
            return p_sp(s, p + 2, esc, com);
        }
    }
    p
}

fn p_sp_comment(s: &Vec<char>, p: usize, com: char) -> (r: usize)
    requires
        p <= s@.len(),
    ensures
        r as int == spec_sp_comment(s@, p as int, com),
        p <= r <= s@.len(),
    decreases s@.len() - p,
{
    if p < s.len() {
        let c = s[p];
        if c == com {
            let q = scan_line(s, p + 1);
            return p_sp_comment(s, q, com);
        } else if c == ' ' || c == '\t' || c == '\n' || c == '\r' {
            return p_sp_comment(s, p + 1, com);
        }
    }
    p
}

fn p_kv_sep(s: &Vec<char>, p: usize, esc: char) -> (r: usize)
    requires
        p <= s@.len(),
    ensures
        r as int == spec_kv_sep_end(s@, p as int, esc),
        p <= r <= s@.len(),
    decreases s@.len() - p,
{
    if p < s.len() {
        let c = s[p];
        if c == ' ' || c == '\t' {
            return p_kv_sep(s, p + 1, esc);
        } else if c == esc && p + 1 < s.len() {
            return p_kv_sep(s, p + 2, esc);
        }
    }
    p
}

// ---------------------------------------------------------------------------
// Keys and barewords
// ---------------------------------------------------------------------------

fn p_key(s: &Vec<char>, p: usize) -> (r: Result<(usize, String), PFail>)
    requires
        p <= s@.len(),
    ensures
        match r {
            Ok((q, k)) => p < q <= s@.len() && spec_key(s@, p as int) == (POut::Parsed {
                end: q as int,
                val: k@,
            }),
            Err(PFail::Soft) => spec_key(s@, p as int) is Soft,
            Err(PFail::Hard(_)) => false,
        },
{
    let q = scan_key_chars(s, p);
    if q > p {
        let k = string_range(s, p, q);
        return Ok((q, k));
    }
    if p < s.len() && s[p] == '<' {
        let r = scan_not_gt(s, p + 1);
        if r > p + 1 && r < s.len() {
            let k = string_range(s, p + 1, r);
            return Ok((r + 1, k));
        }
        return Err(PFail::Soft);
    }
    let dots: Vec<char> = vec!['.', '.'];
    proof {
        assert(dots@ =~= seq!['.', '.']);
    }
    if has_lit(s, p, &dots) {
        let k = string_range(s, p, p + 2);
        proof {
            assert(k@ =~= seq!['.', '.']);
        }
        return Ok((p + 2, k));
    }
    let undef: Vec<char> = vec!['U', 'N', 'D', 'E', 'F', 'I', 'N', 'E', 'D'];
    proof {
        assert(undef@ =~= lit_undefined());
    }
    if has_lit(s, p, &undef) {
        let k = string_range(s, p, p + 9);
        proof {
            assert(k@ =~= lit_undefined());
        }
        return Ok((p + 9, k));
    }
    Err(PFail::Soft)
}

/// The spliced pieces of a bareword from `p` on.
fn p_raw_parts(s: &Vec<char>, p: usize, esc: char, com: char) -> (r: (usize, Vec<char>))
    requires
        p <= s@.len(),
    ensures
        (r.0 as int, r.1@) == spec_raw_parts(s@, p as int, esc, com),
        p <= r.0 <= s@.len(),
    decreases s@.len() - p,
{
    if p < s.len() {
        let c = s[p];
        if !(c == ' ' || c == '\t' || c == '\n' || c == '\r' || c == ';' || c == com || c == esc) {
            let (q, mut t) = p_raw_parts(s, p + 1, esc, com);
            t.insert(0, c);
            proof {
                assert(t@ =~= seq![c] + spec_raw_parts(s@, p + 1, esc, com).1);
            }
            return (q, t);
        }
        if c == esc && p + 1 < s.len() {
            let c2 = s[p + 1];
            let (q, mut t) = p_raw_parts(s, p + 2, esc, com);
            t.insert(0, c2);
            proof {
                assert(t@ =~= seq![c2] + spec_raw_parts(s@, p + 2, esc, com).1);
            }
            return (q, t);
        }
    }
    (p, Vec::new())
}

fn p_raw(s: &Vec<char>, p: usize, esc: char, com: char) -> (r: Result<(usize, String), PFail>)
    requires
        p <= s@.len(),
    ensures
        match r {
            Ok((q, t)) => p <= q <= s@.len() && spec_raw(s@, p as int, esc, com) == (POut::Parsed {
                end: q as int,
                val: t@,
            }),
            Err(PFail::Soft) => spec_raw(s@, p as int, esc, com) is Soft,
            Err(PFail::Hard(_)) => false,
        },
{
    let (q, t) = p_raw_parts(s, p, esc, com);
    if q > p {
        Ok((q, string_of(&t)))
    } else {
        Err(PFail::Soft)
    }
}

// ---------------------------------------------------------------------------
// Integer literals
// ---------------------------------------------------------------------------

spec fn pow16(k: nat) -> int
    decreases k,
{
    if k == 0 {
        1
    } else {
        16 * pow16((k - 1) as nat)
    }
}

proof fn lemma_hex_val_bound(t: Seq<char>)
    requires
        forall|i: int| 0 <= i < t.len() ==> crate::grammar::is_hex_digit(t[i]),
    ensures
        0 <= hex_val(t) < pow16(t.len()),
    decreases t.len(),
{
    if t.len() > 0 {
        lemma_hex_val_bound(t.drop_last());
        assert(crate::grammar::is_hex_digit(t.last()));
        assert(0 <= crate::grammar::hex_digit_val(t.last()) <= 15);
    }
}

/// Once a prefix of the digits already exceeds a bound, the whole number does.
proof fn lemma_dec_val_extend(t: Seq<char>, i: int)
    requires
        0 <= i <= t.len(),
        forall|k: int| 0 <= k < t.len() ==> crate::grammar::is_digit(t[k]),
    ensures
        0 <= dec_val(t.subrange(0, i)) <= dec_val(t),
    decreases t.len() - i,
{
    if i == t.len() {
        assert(t.subrange(0, i) =~= t);
        lemma_dec_val_nonneg(t);
    } else {
        lemma_dec_val_extend(t, i + 1);
        let a = t.subrange(0, i);
        let b = t.subrange(0, i + 1);
        assert(b.drop_last() =~= a);
        assert(crate::grammar::is_digit(t[i]));
        lemma_dec_val_nonneg(a);
        assert(dec_val(b) == dec_val(a) * 10 + crate::grammar::digit_val(b.last()));
        assert(dec_val(a) <= dec_val(a) * 10) by (nonlinear_arith)
            requires dec_val(a) >= 0;
    }
}

proof fn lemma_dec_val_nonneg(t: Seq<char>)
    requires
        forall|k: int| 0 <= k < t.len() ==> crate::grammar::is_digit(t[k]),
    ensures
        dec_val(t) >= 0,
    decreases t.len(),
{
    if t.len() > 0 {
        assert(t.drop_last() =~= t.subrange(0, t.len() - 1));
        lemma_dec_val_nonneg(t.drop_last());
        assert(crate::grammar::is_digit(t.last()));
        assert(dec_val(t.drop_last()) * 10 >= 0) by (nonlinear_arith)
            requires dec_val(t.drop_last()) >= 0;
    }
}

/// Is `s[a..b]` an integer literal (`-?[0-9]+`)?
fn int_lit_shape(s: &Vec<char>, a: usize, b: usize) -> (r: bool)
    requires
        a < b <= s@.len(),
    ensures
        r == is_int_literal(s@.subrange(a as int, b as int)),
{
    let ghost t = s@.subrange(a as int, b as int);
    let neg = s[a] == '-';
    let d0 = if neg {
        a + 1
    } else {
        a
    };
    if neg && b - a < 2 {
        return false;
    }
    proof {
        if neg {
            assert(t.drop_first() =~= s@.subrange(a + 1, b as int));
        }
    }
    let mut i: usize = d0;
    while i < b
        invariant
            a < b <= s@.len(),
            t == s@.subrange(a as int, b as int),
            neg == (s@[a as int] == '-'),
            d0 == if neg { a + 1 } else { a as int },
            (neg ==> b - a >= 2),
            d0 <= i <= b,
            forall|k: int| d0 <= k < i ==> crate::grammar::is_digit(s@[k]),
        decreases b - i,
    {
        let u = s[i] as u32;
        if !(48 <= u && u <= 57) {
            proof {
                if neg {
                    assert(t.drop_first()[i - a - 1] == s@[i as int]);
                } else {
                    assert(t[i - a] == s@[i as int]);
                }
            }
            return false;
        }
        i = i + 1;
    }
    proof {
        if neg {
            assert(forall|k: int|
                0 <= k < t.drop_first().len() ==> t.drop_first()[k] == s@[a + 1 + k]);
        } else {
            assert(forall|k: int| 0 <= k < t.len() ==> t[k] == s@[a + k]);
        }
    }
    true
}

/// The value of the digits `s[d0..q]`, or `None` if it exceeds `lim`.
fn dec_value_capped(s: &Vec<char>, d0: usize, q: usize, lim: u128) -> (r: Option<u128>)
    requires
        d0 <= q <= s@.len(),
        forall|k: int| d0 <= k < q ==> crate::grammar::is_digit(s@[k]),
        lim <= 0x8000_0000_0000_0000,
    ensures
        match r {
            Some(v) => v as int == dec_val(s@.subrange(d0 as int, q as int)) && v <= lim,
            None => dec_val(s@.subrange(d0 as int, q as int)) > lim,
        },
{
    let ghost t = s@.subrange(d0 as int, q as int);
    proof {
        assert(forall|k: int| 0 <= k < t.len() ==> crate::grammar::is_digit(t[k]));
    }
    let mut acc: u128 = 0;
    let mut i: usize = d0;
    while i < q
        invariant
            d0 <= i <= q <= s@.len(),
            forall|k: int| d0 <= k < q ==> crate::grammar::is_digit(s@[k]),
            forall|k: int| 0 <= k < t.len() ==> crate::grammar::is_digit(t[k]),
            t == s@.subrange(d0 as int, q as int),
            acc as int == dec_val(t.subrange(0, i - d0)),
            acc <= lim,
            lim <= 0x8000_0000_0000_0000,
        decreases q - i,
    {
        let u = s[i] as u32;
        let d = (u - 48) as u128;
        proof {
            assert(t.subrange(0, i + 1 - d0).drop_last() =~= t.subrange(0, i - d0));
            assert(t.subrange(0, i + 1 - d0).last() == s@[i as int]);
        }
        let next = acc * 10 + d;
        if next > lim {
            proof {
                lemma_dec_val_extend(t, i + 1 - d0);
            }
            return None;
        }
        acc = next;
        i = i + 1;
    }
    proof {
        assert(t.subrange(0, q - d0) =~= t);
    }
    Some(acc)
}

// ---------------------------------------------------------------------------
// Unicode escapes and quoted strings
// ---------------------------------------------------------------------------

/// The value of the hex digits `s[a..b]` (at most eight of them).
fn hex_value(s: &Vec<char>, a: usize, b: usize) -> (r: u32)
    requires
        a <= b <= s@.len(),
        b - a <= 8,
        forall|k: int| a <= k < b ==> crate::grammar::is_hex_digit(s@[k]),
    ensures
        r as int == hex_val(s@.subrange(a as int, b as int)),
{
    let ghost t = s@.subrange(a as int, b as int);
    proof {
        assert(forall|k: int| 0 <= k < t.len() ==> crate::grammar::is_hex_digit(t[k]));
    }
    let mut acc: u32 = 0;
    let mut i: usize = a;
    while i < b
        invariant
            a <= i <= b <= s@.len(),
            b - a <= 8,
            forall|k: int| a <= k < b ==> crate::grammar::is_hex_digit(s@[k]),
            forall|k: int| 0 <= k < t.len() ==> crate::grammar::is_hex_digit(t[k]),
            t == s@.subrange(a as int, b as int),
            acc as int == hex_val(t.subrange(0, i - a)),
        decreases b - i,
    {
        let u = s[i] as u32;
        let d: u32 = if 48 <= u && u <= 57 {
            u - 48
        } else if 97 <= u && u <= 102 {
            u - 87
        } else {
            proof {
                assert(crate::grammar::is_hex_digit(s@[i as int]));
            }
            u - 55
        };
        proof {
            assert(t.subrange(0, i + 1 - a).drop_last() =~= t.subrange(0, i - a));
            assert(t.subrange(0, i + 1 - a).last() == s@[i as int]);
            assert(d == crate::grammar::hex_digit_val(s@[i as int]));
            lemma_hex_val_bound(t.subrange(0, i - a));
            lemma_hex_val_bound(t.subrange(0, i + 1 - a));
            assert(pow16(t.subrange(0, i + 1 - a).len() as nat) <= pow16(8)) by {
                lemma_pow16_le(t.subrange(0, i + 1 - a).len() as nat, 8);
            }
            assert(pow16(8) == 0x1_0000_0000) by {
                reveal_with_fuel(pow16, 9);
            }
        }
        acc = acc * 16 + d;
        i = i + 1;
    }
    proof {
        assert(t.subrange(0, b - a) =~= t);
    }
    acc
}

proof fn lemma_pow16_le(a: nat, b: nat)
    requires
        a <= b,
    ensures
        pow16(a) <= pow16(b),
        pow16(a) >= 1,
    decreases b,
{
    if a == b {
        lemma_pow16_ge_one(a);
    } else {
        lemma_pow16_le(a, (b - 1) as nat);
    }
}

proof fn lemma_pow16_ge_one(a: nat)
    ensures
        pow16(a) >= 1,
    decreases a,
{
    if a > 0 {
        lemma_pow16_ge_one((a - 1) as nat);
    }
}

/// A `<Uhhhh>` escape at `p`.
fn p_uescape(s: &Vec<char>, p: usize) -> (r: Option<(usize, char)>)
    requires
        p <= s@.len(),
    ensures
        match r {
            Some((q, c)) => p < q <= s@.len() && spec_uescape(s@, p as int) == Some((
                q as int,
                c,
            )),
            None => spec_uescape(s@, p as int) is None,
        },
{
    let open_u: Vec<char> = vec!['<', 'U'];
    proof {
        assert(open_u@ =~= seq!['<', 'U']);
    }
    if !has_lit(s, p, &open_u) {
        return None;
    }
    let slen = s.len();
    let q = scan_hex_chars(s, p + 2);
    let n = q - (p + 2);
    if !(1 <= n && n <= 8 && q < s.len() && s[q] == '>') {
        return None;
    }
    proof {
        crate::grammar::lemma_scan(s@, p + 2, pred_hex_digit());
    }
    let v = hex_value(s, p + 2, q);
    match char_from_u32(v) {
        Some(c) => Some((q + 1, c)),
        None => None,
    }
}

/// The content of a quoted string after the opening quote, up to and
/// including the closing quote.
fn p_str_body(s: &Vec<char>, p: usize, esc: char) -> (r: Result<(usize, Vec<char>), PFail>)
    requires
        p <= s@.len(),
    ensures
        match r {
            Ok((q, t)) => p <= q <= s@.len() && spec_string_body(s@, p as int, esc)
                == (POut::Parsed { end: q as int, val: t@ }),
            Err(PFail::Soft) => false,
            Err(PFail::Hard(_)) => spec_string_body(s@, p as int, esc) is Hard,
        },
    decreases s@.len() - p,
{
    if p >= s.len() {
        return Err(PFail::Hard(ParseError { pos: p, kind: ParseErrorKind::UnterminatedString }));
    }
    let c = s[p];
    if c == esc {
        if p + 1 >= s.len() {
            return Err(
                PFail::Hard(ParseError { pos: p, kind: ParseErrorKind::UnterminatedString }),
            );
        }
        let c2 = s[p + 1];
        if c2 == '\n' {
            return p_str_body(s, p + 2, esc);
        }
        match p_str_body(s, p + 2, esc) {
            Ok((q, mut t)) => {
                t.insert(0, c2);
                proof {
                    assert(t@ =~= seq![c2] + spec_string_body(s@, p + 2, esc)->Parsed_val);
                }
                return Ok((q, t));
            },
            Err(e) => {
                return Err(e);
            },
        }
    }
    if c == '"' {
        return Ok((p + 1, Vec::new()));
    }
    if c == '<' {
        match p_uescape(s, p) {
            Some((q, c2)) => {
                match p_str_body(s, q, esc) {
                    Ok((q2, mut t)) => {
                        t.insert(0, c2);
                        proof {
                            assert(t@ =~= seq![c2] + spec_string_body(s@, q as int, esc)->Parsed_val);
                        }
                        return Ok((q2, t));
                    },
                    Err(e) => {
                        return Err(e);
                    },
                }
            },
            None => {
                return Err(
                    PFail::Hard(
                        ParseError { pos: p, kind: ParseErrorKind::InvalidUnicodeEscape },
                    ),
                );
            },
        }
    }
    match p_str_body(s, p + 1, esc) {
        Ok((q, mut t)) => {
            t.insert(0, c);
            proof {
                assert(t@ =~= seq![c] + spec_string_body(s@, p + 1, esc)->Parsed_val);
            }
            Ok((q, t))
        },
        Err(e) => Err(e),
    }
}

/// A quoted string value.
fn p_string(s: &Vec<char>, p: usize, esc: char) -> (r: Result<(usize, String), PFail>)
    requires
        p <= s@.len(),
    ensures
        match r {
            Ok((q, t)) => p <= q <= s@.len() && spec_string(s@, p as int, esc) == (POut::Parsed {
                end: q as int,
                val: t@,
            }),
            Err(PFail::Soft) => spec_string(s@, p as int, esc) is Soft,
            Err(PFail::Hard(_)) => spec_string(s@, p as int, esc) is Hard,
        },
{
    let two_quotes: Vec<char> = vec!['"', '"'];
    proof {
        assert(two_quotes@ =~= seq!['"', '"']);
    }
    if has_lit(s, p, &two_quotes) {
        let slen = s.len();
        return Ok((p + 2, String::new()));
    }
    if p < s.len() && s[p] == '"' {
        match p_str_body(s, p + 1, esc) {
            Ok((q, t)) => {
                return Ok((q, string_of(&t)));
            },
            Err(e) => {
                return Err(e);
            },
        }
    }
    Err(PFail::Soft)
}

// ---------------------------------------------------------------------------
// Values
// ---------------------------------------------------------------------------

/// One value after the inline skip: integer, quoted string, or bareword.
fn p_value(s: &Vec<char>, p: usize, esc: char, com: char) -> (r: Result<(usize, Value), PFail>)
    requires
        p <= s@.len(),
    ensures
        match r {
            Ok((q, v)) => p <= q <= s@.len() && spec_value(s@, p as int, esc, com)
                == (POut::Parsed { end: q as int, val: v.deep_view() }),
            Err(PFail::Soft) => spec_value(s@, p as int, esc, com) is Soft,
            Err(PFail::Hard(_)) => spec_value(s@, p as int, esc, com) is Hard,
        },
{
    let p1 = p_sp(s, p, esc, com);
    let q = scan_int_chars(s, p1);
    if q > p1 && int_lit_shape(s, p1, q) {
        let ghost t = s@.subrange(p1 as int, q as int);
        let neg = s[p1] == '-';
        let d0 = if neg {
            p1 + 1
        } else {
            p1
        };
        let lim: u128 = if neg {
            0x8000_0000_0000_0000
        } else {
            0x7FFF_FFFF_FFFF_FFFF
        };
        proof {
            crate::grammar::lemma_scan(s@, p1 as int, pred_int_char());
            if neg {
                assert(t.drop_first() =~= s@.subrange(d0 as int, q as int));
                assert(forall|k: int| d0 <= k < q ==> t.drop_first()[k - d0] == s@[k]);
            } else {
                assert(forall|k: int| d0 <= k < q ==> t[k - d0] == s@[k]);
            }
        }
        match dec_value_capped(s, d0, q, lim) {
            Some(mag) => {
                let v: i64 = if neg {
                    if mag == 0x8000_0000_0000_0000 {
                        i64::MIN
                    } else {
                        -((mag as u64) as i64)
                    }
                } else {
                    (mag as u64) as i64
                };
                proof {
                    if neg {
                        assert(int_lit_val(t) == -dec_val(t.drop_first()));
                    }
                }
                return Ok((q, Value::Integer(v)));
            },
            None => {
                return Err(
                    PFail::Hard(
                        ParseError { pos: p1, kind: ParseErrorKind::IntegerOverflow },
                    ),
                );
            },
        }
    }
    match p_string(s, p1, esc) {
        Ok((q2, t)) => {
            return Ok((q2, Value::String(t)));
        },
        Err(PFail::Hard(e)) => {
            return Err(PFail::Hard(e));
        },
        Err(PFail::Soft) => {},
    }
    match p_raw(s, p1, esc, com) {
        Ok((q2, t)) => Ok((q2, Value::Raw(t))),
        Err(_) => Err(PFail::Soft),
    }
}

// ---------------------------------------------------------------------------
// Value lists
// ---------------------------------------------------------------------------

/// An optional value slot: absent where no value parses.
fn p_opt_value(s: &Vec<char>, p: usize, esc: char, com: char) -> (r: Result<
    (usize, Option<Value>),
    PFail,
>)
    requires
        p <= s@.len(),
    ensures
        match r {
            Ok((q, ov)) => p <= q <= s@.len() && spec_opt_value(s@, p as int, esc, com)
                == (POut::Parsed { end: q as int, val: (q as int, ov.deep_view()) }),
            Err(PFail::Soft) => false,
            Err(PFail::Hard(_)) => spec_opt_value(s@, p as int, esc, com) is Hard,
        },
{
    match p_value(s, p, esc, com) {
        Ok((q, v)) => Ok((q, Some(v))),
        Err(PFail::Soft) => Ok((p, None)),
        Err(PFail::Hard(e)) => Err(PFail::Hard(e)),
    }
}

fn p_vlist_tail(s: &Vec<char>, p: usize, esc: char, com: char) -> (r: Result<
    (usize, Vec<Option<Value>>),
    PFail,
>)
    requires
        p <= s@.len(),
    ensures
        match r {
            Ok((q, vs)) => p <= q <= s@.len() && spec_vlist_tail(s@, p as int, esc, com)
                == (POut::Parsed { end: q as int, val: vs.deep_view() }),
            Err(PFail::Soft) => false,
            Err(PFail::Hard(_)) => spec_vlist_tail(s@, p as int, esc, com) is Hard,
        },
    decreases s@.len() - p,
{
    if p < s.len() {
        let c = s[p];
        if c == ';' || c == ' ' || c == '\t' {
            match p_opt_value(s, p + 1, esc, com) {
                Ok((q, ov)) => {
                    match p_vlist_tail(s, q, esc, com) {
                        Ok((q2, mut vs)) => {
                            vs.insert(0, ov);
                            proof {
                                assert(vs.deep_view() =~= seq![ov.deep_view()]
                                    + spec_vlist_tail(s@, q as int, esc, com)->Parsed_val);
                            }
                            return Ok((q2, vs));
                        },
                        Err(e) => {
                            return Err(e);
                        },
                    }
                },
                Err(e) => {
                    return Err(e);
                },
            }
        }
    }
    let vs: Vec<Option<Value>> = Vec::new();
    proof {
        assert(vs.deep_view() =~= Seq::<Option<GVal>>::empty());
    }
    Ok((p, vs))
}

fn p_value_list(s: &Vec<char>, p: usize, esc: char, com: char) -> (r: Result<
    (usize, Vec<Option<Value>>),
    PFail,
>)
    requires
        p <= s@.len(),
    ensures
        match r {
            Ok((q, vs)) => p <= q <= s@.len() && spec_value_list(s@, p as int, esc, com)
                == (POut::Parsed { end: q as int, val: vs.deep_view() }),
            Err(PFail::Soft) => false,
            Err(PFail::Hard(_)) => spec_value_list(s@, p as int, esc, com) is Hard,
        },
{
    match p_opt_value(s, p, esc, com) {
        Ok((q, ov)) => {
            match p_vlist_tail(s, q, esc, com) {
                Ok((q2, mut vs)) => {
                    vs.insert(0, ov);
                    proof {
                        assert(vs.deep_view() =~= seq![ov.deep_view()]
                            + spec_vlist_tail(s@, q as int, esc, com)->Parsed_val);
                    }
                    Ok((q2, vs))
                },
                Err(e) => Err(e),
            }
        },
        Err(e) => Err(e),
    }
}

// ---------------------------------------------------------------------------
// Field lines
// ---------------------------------------------------------------------------

fn p_key_value(s: &Vec<char>, p: usize, esc: char, com: char) -> (r: Result<
    (usize, (String, Vec<Option<Value>>)),
    PFail,
>)
    requires
        p <= s@.len(),
    ensures
        match r {
            Ok((q, kv)) => p < q <= s@.len() && spec_key_value(s@, p as int, esc, com)
                == (POut::Parsed { end: q as int, val: (kv.0@, kv.1.deep_view()) }),
            Err(PFail::Soft) => spec_key_value(s@, p as int, esc, com) is Soft,
            Err(PFail::Hard(_)) => spec_key_value(s@, p as int, esc, com) is Hard,
        },
{
    let p1 = p_sp_comment(s, p, com);
    match p_key(s, p1) {
        Ok((p2, k)) => {
            let p3 = p_kv_sep(s, p2, esc);
            if p3 > p2 {
                match p_value_list(s, p3, esc, com) {
                    Ok((q, vs)) => Ok((q, (k, vs))),
                    Err(e) => Err(e),
                }
            } else {
                let vs: Vec<Option<Value>> = Vec::new();
                proof {
                    assert(vs.deep_view() =~= Seq::<Option<GVal>>::empty());
                }
                Ok((p2, (k, vs)))
            }
        },
        Err(e) => Err(e),
    }
}

fn p_key_values(s: &Vec<char>, p: usize, esc: char, com: char) -> (r: Result<
    (usize, Vec<(String, Vec<Option<Value>>)>),
    PFail,
>)
    requires
        p <= s@.len(),
    ensures
        match r {
            Ok((q, kvs)) => p <= q <= s@.len() && spec_key_values(s@, p as int, esc, com)
                == (POut::Parsed { end: q as int, val: kvs.deep_view() }),
            Err(PFail::Soft) => false,
            Err(PFail::Hard(_)) => spec_key_values(s@, p as int, esc, com) is Hard,
        },
    decreases s@.len() - p,
{
    match p_key_value(s, p, esc, com) {
        Ok((q, kv)) => {
            match p_key_values(s, q, esc, com) {
                Ok((q2, mut kvs)) => {
                    kvs.insert(0, kv);
                    proof {
                        assert(kvs.deep_view() =~= seq![(kv.0@, kv.1.deep_view())]
                            + spec_key_values(s@, q as int, esc, com)->Parsed_val);
                    }
                    Ok((q2, kvs))
                },
                Err(e) => Err(e),
            }
        },
        Err(PFail::Soft) => {
            let kvs: Vec<(String, Vec<Option<Value>>)> = Vec::new();
            proof {
                assert(kvs.deep_view() =~= Seq::<(Seq<char>, Seq<Option<GVal>>)>::empty());
            }
            Ok((p, kvs))
        },
        Err(PFail::Hard(e)) => Err(PFail::Hard(e)),
    }
}

// ---------------------------------------------------------------------------
// Categories
// ---------------------------------------------------------------------------

/// Drops the explicit absences from a run.
fn flatten_values(mut vs: Vec<Option<Value>>) -> (r: Vec<Value>)
    ensures
        r.deep_view() == flatten_opts(vs.deep_view()),
{
    let ghost orig = vs.deep_view();
    let mut out: Vec<Value> = Vec::new();
    while vs.len() > 0
        invariant
            flatten_opts(orig) == out.deep_view() + flatten_opts(vs.deep_view()),
        decreases vs.len(),
    {
        let ghost pre = vs.deep_view();
        let ov = vs.remove(0);
        proof {
            assert(vs.deep_view() =~= pre.drop_first());
        }
        match ov {
            Some(v) => {
                let ghost gv = v.deep_view();
                out.push(v);
                proof {
                    assert(out.deep_view().drop_last() + seq![gv] =~= out.deep_view());
                    assert(out.deep_view().drop_last() + (seq![gv] + flatten_opts(
                        pre.drop_first(),
                    )) =~= out.deep_view() + flatten_opts(pre.drop_first()));
                }
            },
            None => {},
        }
    }
    proof {
        assert(flatten_opts(vs.deep_view()) == Seq::<GVal>::empty());
        assert(out.deep_view() + Seq::<GVal>::empty() =~= out.deep_view());
    }
    out
}

/// Turns the parsed field lines into runs, dropping explicit absences.
fn assemble_runs(kvs: Vec<(String, Vec<Option<Value>>)>) -> (r: Vec<(String, Vec<Value>)>)
    ensures
        r.deep_view() == kvs.deep_view().map_values(crate::grammar::flatten_run()),
{
    let ghost gkvs = kvs.deep_view();
    let ghost f = crate::grammar::flatten_run();
    let mut rest = kvs;
    let mut values: Vec<(String, Vec<Value>)> = Vec::new();
    proof {
        assert(values.deep_view() + rest.deep_view().map_values(f) =~= gkvs.map_values(f));
    }
    while rest.len() > 0
        invariant
            f == crate::grammar::flatten_run(),
            values.deep_view() + rest.deep_view().map_values(f) =~= gkvs.map_values(f),
        decreases rest.len(),
    {
        let ghost pre = rest.deep_view();
        let (k, vs) = rest.remove(0);
        proof {
            assert(rest.deep_view() =~= pre.drop_first());
        }
        let ghost gk = k@;
        let ghost gvs = vs.deep_view();
        let fv = flatten_values(vs);
        values.push((k, fv));
        proof {
            assert(values.deep_view().drop_last() + seq![(gk, flatten_opts(gvs))]
                =~= values.deep_view());
            assert(seq![f(pre[0])] + pre.drop_first().map_values(f) =~= pre.map_values(f));
            assert(values.deep_view().drop_last() + (seq![f(pre[0])] + pre.drop_first().map_values(
                f,
            )) =~= values.deep_view() + pre.drop_first().map_values(f));
        }
    }
    proof {
        assert(rest.deep_view().map_values(f) =~= Seq::<(Seq<char>, Seq<GVal>)>::empty());
        assert(values.deep_view() + Seq::<(Seq<char>, Seq<GVal>)>::empty() =~= values.deep_view());
    }
    values
}

/// One whole category.
#[verifier::rlimit(40)]
fn p_object(s: &Vec<char>, p: usize, esc: char, com: char) -> (r: Result<(usize, Object), PFail>)
    requires
        p <= s@.len(),
    ensures
        match r {
            Ok((q, o)) => p < q <= s@.len() && spec_object(s@, p as int, esc, com)
                == (POut::Parsed { end: q as int, val: o.deep_view() }),
            Err(PFail::Soft) => spec_object(s@, p as int, esc, com) is Soft,
            Err(PFail::Hard(_)) => spec_object(s@, p as int, esc, com) is Hard,
        },
{
    let slen = s.len();
    let p1 = p_sp_comment(s, p, com);
    let p2 = scan_head_chars(s, p1);
    if p2 <= p1 {
        return Err(PFail::Soft);
    }
    let name = string_range(s, p1, p2);
    let p3 = scan_multispace(s, p2);
    match p_key_values(s, p3, esc, com) {
        Err(e) => Err(e),
        Ok((p4, kvs)) => {
            let ghost gname = s@.subrange(p1 as int, p2 as int);
            let p5 = p_sp_comment(s, p4, com);
            let n = p2 - p1;
            // build the closing tag `END ` + name and match it literally
            let mut tagv: Vec<char> = vec!['E', 'N', 'D', ' '];
            proof {
                assert(tagv@ =~= seq!['E', 'N', 'D', ' '] + s@.subrange(p1 as int, p1 as int));
            }
            let mut k: usize = 0;
            while k < n
                invariant
                    p1 + n == p2 <= slen,
                    slen == s@.len(),
                    k <= n,
                    tagv@ =~= seq!['E', 'N', 'D', ' '] + s@.subrange(p1 as int, p1 + k),
                decreases n - k,
            {
                tagv.push(s[p1 + k]);
                proof {
                    assert(tagv@ =~= seq!['E', 'N', 'D', ' '] + s@.subrange(p1 as int, p1 + k + 1));
                }
                k = k + 1;
            }
            proof {
                assert(tagv@ =~= seq!['E', 'N', 'D', ' '] + gname);
            }
            if !has_lit(s, p5, &tagv) {
                return Err(PFail::Soft);
            }
            let p6 = p5 + 4 + n;
            let p7 = scan_multispace(s, p6);
            let values = assemble_runs(kvs);
            Ok((p7, Object { name, values }))
        },
    }
}

// ---------------------------------------------------------------------------
// Whole files
// ---------------------------------------------------------------------------

fn p_objects(s: &Vec<char>, p: usize, esc: char, com: char) -> (r: Result<Vec<Object>, ParseError>)
    requires
        p <= s@.len(),
    ensures
        match r {
            Ok(objs) => spec_objects(s@, p as int, esc, com) == Some(objs.deep_view()),
            Err(_) => spec_objects(s@, p as int, esc, com) is None,
        },
    decreases s@.len() - p,
{
    if p >= s.len() {
        let objs: Vec<Object> = Vec::new();
        proof {
            assert(objs.deep_view() =~= Seq::<GObj>::empty());
        }
        return Ok(objs);
    }
    match p_object(s, p, esc, com) {
        Ok((q, o)) => {
            let ghost go = o.deep_view();
            match p_objects(s, q, esc, com) {
                Ok(mut rest) => {
                    rest.insert(0, o);
                    proof {
                        assert(rest.deep_view() =~= seq![go] + spec_objects(
                            s@,
                            q as int,
                            esc,
                            com,
                        )->0);
                    }
                    Ok(rest)
                },
                Err(e) => Err(e),
            }
        },
        Err(PFail::Soft) => {
            let q = p_sp_comment(s, p, com);
            if q == s.len() {
                let objs: Vec<Object> = Vec::new();
                proof {
                    assert(objs.deep_view() =~= Seq::<GObj>::empty());
                }
                Ok(objs)
            } else {
                Err(ParseError { pos: q, kind: ParseErrorKind::TrailingContent })
            }
        },
        Err(PFail::Hard(e)) => Err(e),
    }
}

/// One preamble declaration.
fn p_one_special(s: &Vec<char>, p: usize) -> (r: Option<(usize, bool, char)>)
    requires
        p <= s@.len(),
    ensures
        match r {
            Some((q, k, c)) => p < q <= s@.len() && spec_one_special(s@, p as int) == Some(
                (q as int, k, c),
            ),
            None => spec_one_special(s@, p as int) is None,
        },
{
    let slen = s.len();
    let p1 = scan_multispace(s, p);
    let lit_c: Vec<char> = vec!['c', 'o', 'm', 'm', 'e', 'n', 't', '_', 'c', 'h', 'a', 'r'];
    let lit_e: Vec<char> = vec!['e', 's', 'c', 'a', 'p', 'e', '_', 'c', 'h', 'a', 'r'];
    proof {
        assert(lit_c@ =~= lit_comment_char());
        assert(lit_e@ =~= lit_escape_char());
    }
    let (is_com, p2) = if has_lit(s, p1, &lit_c) {
        (true, p1 + 12)
    } else if has_lit(s, p1, &lit_e) {
        (false, p1 + 11)
    } else {
        return None;
    };
    let p3 = scan_space(s, p2);
    if p3 > p2 && p3 < slen {
        Some((p3 + 1, is_com, s[p3]))
    } else {
        None
    }
}

/// The preamble, if present.
fn p_special_chars(s: &Vec<char>) -> (r: Option<(usize, char, char)>)
    ensures
        match r {
            Some((q, com, esc)) => q <= s@.len() && spec_special_chars(s@) == Some(
                (q as int, com, esc),
            ),
            None => spec_special_chars(s@) is None,
        },
{
    match p_one_special(s, 0) {
        None => None,
        Some((p, k1, c1)) => match p_one_special(s, p) {
            None => None,
            Some((q, k2, c2)) => {
                let com = if k2 {
                    c2
                } else if k1 {
                    c1
                } else {
                    '%'
                };
                let esc = if !k2 {
                    c2
                } else if !k1 {
                    c1
                } else {
                    '/'
                };
                Some((q, com, esc))
            },
        },
    }
}

/// Parses the text of one locale source file into its categories.
///
/// Returns exactly what the grammar in [`crate::grammar`] assigns to the
/// text: `Ok` with the parsed categories where [`spec_parse`] accepts the
/// input, and `Err` — naming the kind of fault and an approximate position —
/// where it does not.  A category closed by a tag naming a different
/// category does not parse, and surfaces as trailing content.
#[verifier::rlimit(100)]
pub fn parse(input: &str) -> (r: Result<Vec<Object>, ParseError>)
    ensures
        match r {
            Ok(objs) => spec_parse(input@) == Some(objs.deep_view()),
            Err(_) => spec_parse(input@) is None,
        },
{
    let s = to_chars(input);
    match p_special_chars(&s) {
        Some((p, com, esc)) => p_objects(&s, p, esc, com),
        None => p_objects(&s, 0, '\u{0}', '#'),
    }
}

/// Parses a locale name `language[_territory][@modifier]`, each part
/// alphabetic; the whole input must match, and the language part must not be
/// `translit`.
pub fn parse_lang(input: &str) -> (r: Result<
    (String, Option<String>, Option<String>),
    ParseError,
>)
    ensures
        match r {
            Ok(t) => spec_parse_lang(input@) == Some(t.deep_view()),
            Err(e) => spec_parse_lang(input@) is None && e.pos <= input@.len(),
        },
{
    let s = to_chars(input);
    let slen = s.len();
    let p1 = scan_alpha_chars(&s, 0);
    if p1 == 0 {
        return Err(ParseError { pos: 0, kind: ParseErrorKind::TrailingContent });
    }
    let lang = string_range(&s, 0, p1);
    let tl: Vec<char> = vec!['t', 'r', 'a', 'n', 's', 'l', 'i', 't'];
    proof {
        assert(tl@ =~= seq!['t', 'r', 'a', 'n', 's', 'l', 'i', 't']);
    }
    if p1 == 8 && has_lit(&s, 0, &tl) {
        return Err(ParseError { pos: 0, kind: ParseErrorKind::TrailingContent });
    }
    let (p2, country) = if p1 < slen && s[p1] == '_' {
        let q = scan_alpha_chars(&s, p1 + 1);
        if q > p1 + 1 {
            (q, Some(string_range(&s, p1 + 1, q)))
        } else {
            (p1, None)
        }
    } else {
        (p1, None)
    };
    let (p3, variant) = if p2 < slen && s[p2] == '@' {
        let q = scan_alpha_chars(&s, p2 + 1);
        if q > p2 + 1 {
            (q, Some(string_range(&s, p2 + 1, q)))
        } else {
            (p2, None)
        }
    } else {
        (p2, None)
    };
    if p3 == slen {
        Ok((lang, country, variant))
    } else {
        Err(ParseError { pos: p3, kind: ParseErrorKind::TrailingContent })
    }
}

} // verus!
