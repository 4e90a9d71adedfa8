//! The locale source grammar, stated as spec functions.
//!
//! A locale file is a sequence of characters.  The functions here define, at
//! the specification level, what each production of the grammar consumes and
//! produces: positions are `int` indices into the sequence, and every parser
//! returns a [`POut`] — success with an end position and a value, a soft
//! failure (the production does not apply, callers may try another), or a
//! hard failure (the file is malformed beyond recovery: an unterminated
//! string, an invalid unicode escape, an integer overflow).
//!
//! The executable parser in [`crate::parser`] is proved to return exactly
//! what these functions say.

use vstd::prelude::*;

verus! {

/// A single parsed value: a bareword, a quoted string, or an integer.
pub ghost enum GVal {
    Raw(Seq<char>),
    Str(Seq<char>),
    Int(int),
}

/// A parsed category: its name and its keyed value runs, in source order.
pub ghost struct GObj {
    pub name: Seq<char>,
    pub runs: Seq<(Seq<char>, Seq<GVal>)>,
}

/// Outcome of one grammar production at one position.
pub ghost enum POut<T> {
    Parsed { end: int, val: T },
    Soft,
    Hard,
}

// ---------------------------------------------------------------------------
// Character classes
// ---------------------------------------------------------------------------

pub open spec fn is_space(c: char) -> bool {
    c == ' ' || c == '\t'
}

pub open spec fn is_line_end(c: char) -> bool {
    c == '\n' || c == '\r'
}

pub open spec fn is_multispace(c: char) -> bool {
    is_space(c) || is_line_end(c)
}

pub open spec fn is_digit(c: char) -> bool {
    48 <= c as u32 <= 57
}

pub open spec fn digit_val(c: char) -> int {
    c as u32 - 48
}

pub open spec fn is_int_char(c: char) -> bool {
    is_digit(c) || c == '-'
}

pub open spec fn is_alpha(c: char) -> bool {
    (65 <= c as u32 <= 90) || (97 <= c as u32 <= 122)
}

pub open spec fn is_key_char(c: char) -> bool {
    (97 <= c as u32 <= 122) || is_digit(c) || c == '_' || c == '-'
}

pub open spec fn is_head_char(c: char) -> bool {
    (65 <= c as u32 <= 90) || c == '_'
}

pub open spec fn is_hex_digit(c: char) -> bool {
    is_digit(c) || (97 <= c as u32 <= 102) || (65 <= c as u32 <= 70)
}

pub open spec fn hex_digit_val(c: char) -> int {
    if is_digit(c) {
        digit_val(c)
    } else if 97 <= c as u32 <= 102 {
        c as u32 - 87
    } else {
        c as u32 - 55
    }
}

/// Separators between values on one key line.
pub open spec fn is_sep(c: char) -> bool {
    c == ';' || c == ' ' || c == '\t'
}

/// A character that a bareword may contain without escaping.
pub open spec fn is_raw_char(c: char, esc: char, com: char) -> bool {
    !is_space(c) && !is_line_end(c) && c != ';' && c != com && c != esc
}

// ---------------------------------------------------------------------------
// Scanning helpers
// ---------------------------------------------------------------------------

/// The end of the run of characters satisfying `f` that starts at `p`.
pub open spec fn scan(s: Seq<char>, p: int, f: spec_fn(char) -> bool) -> int
    decreases s.len() - p,
{
    if 0 <= p < s.len() && f(s[p]) {
        scan(s, p + 1, f)
    } else {
        p
    }
}

// The predicates handed to `scan`, each defined once so that every mention
// denotes the same function value.

pub open spec fn pred_inline_comment(esc: char) -> spec_fn(char) -> bool {
    |c: char| !is_line_end(c) && c != esc
}

pub open spec fn pred_not_line_end() -> spec_fn(char) -> bool {
    |c: char| !is_line_end(c)
}

pub open spec fn pred_multispace() -> spec_fn(char) -> bool {
    |c: char| is_multispace(c)
}

pub open spec fn pred_space() -> spec_fn(char) -> bool {
    |c: char| is_space(c)
}

pub open spec fn pred_key_char() -> spec_fn(char) -> bool {
    |c: char| is_key_char(c)
}

pub open spec fn pred_head_char() -> spec_fn(char) -> bool {
    |c: char| is_head_char(c)
}

pub open spec fn pred_int_char() -> spec_fn(char) -> bool {
    |c: char| is_int_char(c)
}

pub open spec fn pred_hex_digit() -> spec_fn(char) -> bool {
    |c: char| is_hex_digit(c)
}

pub open spec fn pred_alpha() -> spec_fn(char) -> bool {
    |c: char| is_alpha(c)
}

pub open spec fn pred_not_gt() -> spec_fn(char) -> bool {
    |c: char| c != '>'
}

pub proof fn lemma_scan(s: Seq<char>, p: int, f: spec_fn(char) -> bool)
    requires
        0 <= p <= s.len(),
    ensures
        p <= scan(s, p, f) <= s.len(),
        forall|i: int| p <= i < scan(s, p, f) ==> f(s[i]),
        scan(s, p, f) < s.len() ==> !f(s[scan(s, p, f)]),
    decreases s.len() - p,
{
    if 0 <= p < s.len() && f(s[p]) {
        lemma_scan(s, p + 1, f);
    }
}

/// The literal `lit` occurs in `s` at position `p`.
pub open spec fn lit_at(s: Seq<char>, p: int, lit: Seq<char>) -> bool {
    0 <= p && p + lit.len() <= s.len() && s.subrange(p, p + lit.len() as int) == lit
}

// ---------------------------------------------------------------------------
// Skip rules
// ---------------------------------------------------------------------------

/// Inline skip between a key and its values: runs of spaces or tabs, a
/// comment running to the end of the line (stopped early by the escape
/// character), or an escaped single character.
pub open spec fn spec_sp(s: Seq<char>, p: int, esc: char, com: char) -> int
    decreases s.len() - p,
{
    if 0 <= p < s.len() {
        if is_space(s[p]) {
            spec_sp(s, p + 1, esc, com)
        } else if s[p] == com {
            let q = scan(s, p + 1, pred_inline_comment(esc));
            if p + 1 <= q <= s.len() {
                spec_sp(s, q, esc, com)
            } else {
                p
            }
        } else if s[p] == esc && p + 2 <= s.len() {
            spec_sp(s, p + 2, esc, com)
        } else {
            p
        }
    } else {
        p
    }
}

/// Skip between categories and field lines: whitespace of any kind, or a
/// comment running to the end of the line.
pub open spec fn spec_sp_comment(s: Seq<char>, p: int, com: char) -> int
    decreases s.len() - p,
{
    if 0 <= p < s.len() {
        if s[p] == com {
            let q = scan(s, p + 1, pred_not_line_end());
            if p + 1 <= q <= s.len() {
                spec_sp_comment(s, q, com)
            } else {
                p
            }
        } else if is_multispace(s[p]) {
            spec_sp_comment(s, p + 1, com)
        } else {
            p
        }
    } else {
        p
    }
}

pub open spec fn spec_multispace0(s: Seq<char>, p: int) -> int {
    scan(s, p, pred_multispace())
}



// ---------------------------------------------------------------------------
// Tokens
// ---------------------------------------------------------------------------

pub open spec fn lit_undefined() -> Seq<char> {
    seq!['U', 'N', 'D', 'E', 'F', 'I', 'N', 'E', 'D']
}

/// A field key: a run of lower-case/digit/`_`/`-` characters, a bracketed
/// literal `<...>` (without the brackets), the sentinel `..`, or the literal
/// `UNDEFINED`.
pub open spec fn spec_key(s: Seq<char>, p: int) -> POut<Seq<char>> {
    let q = scan(s, p, pred_key_char());
    if q > p {
        POut::Parsed { end: q, val: s.subrange(p, q) }
    } else if 0 <= p && p < s.len() && s[p] == '<' {
        let r = scan(s, p + 1, pred_not_gt());
        if r > p + 1 && r < s.len() {
            POut::Parsed { end: r + 1, val: s.subrange(p + 1, r) }
        } else {
            POut::Soft
        }
    } else if lit_at(s, p, seq!['.', '.']) {
        POut::Parsed { end: p + 2, val: seq!['.', '.'] }
    } else if lit_at(s, p, lit_undefined()) {
        POut::Parsed { end: p + 9, val: lit_undefined() }
    } else {
        POut::Soft
    }
}

/// The pieces of a bareword starting at `p`: plain characters and escaped
/// single characters, spliced together; ends where neither applies.
pub open spec fn spec_raw_parts(s: Seq<char>, p: int, esc: char, com: char) -> (int, Seq<char>)
    decreases s.len() - p,
{
    if 0 <= p < s.len() && is_raw_char(s[p], esc, com) {
        let (q, t) = spec_raw_parts(s, p + 1, esc, com);
        (q, seq![s[p]] + t)
    } else if 0 <= p && p + 2 <= s.len() && s[p] == esc {
        let (q, t) = spec_raw_parts(s, p + 2, esc, com);
        (q, seq![s[p + 1]] + t)
    } else {
        (p, Seq::empty())
    }
}

/// A bareword value: at least one plain or escaped character.
pub open spec fn spec_raw(s: Seq<char>, p: int, esc: char, com: char) -> POut<Seq<char>> {
    let (q, t) = spec_raw_parts(s, p, esc, com);
    if q > p {
        POut::Parsed { end: q, val: t }
    } else {
        POut::Soft
    }
}


// ---------------------------------------------------------------------------
// Quoted strings and unicode escapes
// ---------------------------------------------------------------------------

/// A unicode scalar value: a code point that is a valid `char`.
pub open spec fn is_scalar_value(v: int) -> bool {
    (0 <= v < 0xD800) || (0xE000 <= v <= 0x10FFFF)
}

pub open spec fn hex_val(ds: Seq<char>) -> int
    decreases ds.len(),
{
    if ds.len() == 0 {
        0
    } else {
        hex_val(ds.drop_last()) * 16 + hex_digit_val(ds.last())
    }
}

/// A numeric escape `<Uhhhh>` (1 to 8 hex digits) at position `p` (which
/// holds the `<`): the position after the closing `>` and the decoded
/// character, or `None` if malformed or not a valid code point.
pub open spec fn spec_uescape(s: Seq<char>, p: int) -> Option<(int, char)> {
    if lit_at(s, p, seq!['<', 'U']) {
        let q = scan(s, p + 2, pred_hex_digit());
        let n = q - (p + 2);
        if 1 <= n <= 8 && q < s.len() && s[q] == '>' {
            let v = hex_val(s.subrange(p + 2, q));
            if is_scalar_value(v) {
                Some((q + 1, (v as u32) as char))
            } else {
                None
            }
        } else {
            None
        }
    } else {
        None
    }
}

/// The content of a quoted string from `p` (just after the opening quote) up
/// to and including the closing quote.  The escape character splices the next
/// character in literally, or drops a following newline (line continuation);
/// a `<` must begin a valid `<Uhhhh>` escape.  Failures here are hard: the
/// file is rejected as a whole.
pub open spec fn spec_string_body(s: Seq<char>, p: int, esc: char) -> POut<Seq<char>>
    decreases s.len() - p,
{
    if p < 0 || p >= s.len() {
        POut::Hard
    } else if s[p] == esc {
        if p + 1 >= s.len() {
            POut::Hard
        } else if s[p + 1] == '\n' {
            spec_string_body(s, p + 2, esc)
        } else {
            match spec_string_body(s, p + 2, esc) {
                POut::Parsed { end, val } => POut::Parsed { end, val: seq![s[p + 1]] + val },
                e => e,
            }
        }
    } else if s[p] == '"' {
        POut::Parsed { end: p + 1, val: Seq::empty() }
    } else if s[p] == '<' {
        match spec_uescape(s, p) {
            Some((q, c)) => {
                if p < q <= s.len() {
                    match spec_string_body(s, q, esc) {
                        POut::Parsed { end, val } => POut::Parsed { end, val: seq![c] + val },
                        e => e,
                    }
                } else {
                    POut::Hard
                }
            },
            None => POut::Hard,
        }
    } else {
        match spec_string_body(s, p + 1, esc) {
            POut::Parsed { end, val } => POut::Parsed { end, val: seq![s[p]] + val },
            e => e,
        }
    }
}

/// A quoted string value: `""` is the empty string; otherwise an opening
/// quote, content, and a closing quote.
pub open spec fn spec_string(s: Seq<char>, p: int, esc: char) -> POut<Seq<char>> {
    if lit_at(s, p, seq!['"', '"']) {
        POut::Parsed { end: p + 2, val: Seq::empty() }
    } else if 0 <= p && p < s.len() && s[p] == '"' {
        spec_string_body(s, p + 1, esc)
    } else {
        POut::Soft
    }
}

// ---------------------------------------------------------------------------
// Integer literals
// ---------------------------------------------------------------------------

pub open spec fn all_digits(t: Seq<char>) -> bool {
    forall|i: int| 0 <= i < t.len() ==> is_digit(t[i])
}

/// `-?[0-9]+`: an optional minus then at least one digit, nothing else.
pub open spec fn is_int_literal(t: Seq<char>) -> bool {
    if t.len() == 0 {
        false
    } else if t[0] == '-' {
        t.len() >= 2 && all_digits(t.drop_first())
    } else {
        all_digits(t)
    }
}

pub open spec fn dec_val(ds: Seq<char>) -> int
    decreases ds.len(),
{
    if ds.len() == 0 {
        0
    } else {
        dec_val(ds.drop_last()) * 10 + digit_val(ds.last())
    }
}

pub open spec fn int_lit_val(t: Seq<char>) -> int {
    if t.len() > 0 && t[0] == '-' {
        -dec_val(t.drop_first())
    } else {
        dec_val(t)
    }
}

// ---------------------------------------------------------------------------
// Values
// ---------------------------------------------------------------------------

/// One value after the inline skip: an integer if the maximal run of sign and
/// digit characters forms an integer literal (overflow of `i64` is a hard
/// failure), else a quoted string, else a bareword.
pub open spec fn spec_value(s: Seq<char>, p: int, esc: char, com: char) -> POut<GVal> {
    let p1 = spec_sp(s, p, esc, com);
    if !(p <= p1 <= s.len()) {
        POut::Soft
    } else {
        let q = scan(s, p1, pred_int_char());
        let t = s.subrange(p1, q);
        if q > p1 && is_int_literal(t) {
            if i64::MIN <= int_lit_val(t) <= i64::MAX {
                POut::Parsed { end: q, val: GVal::Int(int_lit_val(t)) }
            } else {
                POut::Hard
            }
        } else {
            match spec_string(s, p1, esc) {
                POut::Parsed { end, val } => POut::Parsed { end, val: GVal::Str(val) },
                POut::Hard => POut::Hard,
                POut::Soft => match spec_raw(s, p1, esc, com) {
                    POut::Parsed { end, val } => POut::Parsed { end, val: GVal::Raw(val) },
                    _ => POut::Soft,
                },
            }
        }
    }
}

/// An optional value slot: a missing value (two adjacent separators, or a
/// separator at the end of the line) is an explicit absence.
pub open spec fn spec_opt_value(s: Seq<char>, p: int, esc: char, com: char) -> POut<
    (int, Option<GVal>),
> {
    match spec_value(s, p, esc, com) {
        POut::Parsed { end, val } => POut::Parsed { end, val: (end, Some(val)) },
        POut::Soft => POut::Parsed { end: p, val: (p, None) },
        POut::Hard => POut::Hard,
    }
}

/// The value slots after the first: a separator (`;`, space or tab) then an
/// optional value, repeated while separators keep coming.
pub open spec fn spec_vlist_tail(s: Seq<char>, p: int, esc: char, com: char) -> POut<
    Seq<Option<GVal>>,
>
    decreases s.len() - p,
{
    if 0 <= p < s.len() && is_sep(s[p]) {
        match spec_opt_value(s, p + 1, esc, com) {
            POut::Parsed { end: _, val: (q, ov) } => {
                if p + 1 <= q <= s.len() {
                    match spec_vlist_tail(s, q, esc, com) {
                        POut::Parsed { end, val } => POut::Parsed { end, val: seq![ov] + val },
                        e => e,
                    }
                } else {
                    POut::Soft
                }
            },
            POut::Hard => POut::Hard,
            POut::Soft => POut::Soft,
        }
    } else {
        POut::Parsed { end: p, val: Seq::empty() }
    }
}

/// A full value list: a first optional slot, then the separated tail.
pub open spec fn spec_value_list(s: Seq<char>, p: int, esc: char, com: char) -> POut<
    Seq<Option<GVal>>,
> {
    match spec_opt_value(s, p, esc, com) {
        POut::Parsed { end: _, val: (q, ov) } => {
            if p <= q <= s.len() {
                match spec_vlist_tail(s, q, esc, com) {
                    POut::Parsed { end, val } => POut::Parsed { end, val: seq![ov] + val },
                    e => e,
                }
            } else {
                POut::Soft
            }
        },
        POut::Hard => POut::Hard,
        POut::Soft => POut::Soft,
    }
}

/// The separator between a key and its first value: at least one space, tab,
/// or escaped single character (escape before a newline continues the line).
pub open spec fn spec_kv_sep_end(s: Seq<char>, p: int, esc: char) -> int
    decreases s.len() - p,
{
    if 0 <= p < s.len() && is_space(s[p]) {
        spec_kv_sep_end(s, p + 1, esc)
    } else if 0 <= p && p + 2 <= s.len() && s[p] == esc {
        spec_kv_sep_end(s, p + 2, esc)
    } else {
        p
    }
}


// ---------------------------------------------------------------------------
// Field lines, categories, whole files
// ---------------------------------------------------------------------------

/// One field line: leading skip, a key, then either a separator and a value
/// list, or nothing.
pub open spec fn spec_key_value(s: Seq<char>, p: int, esc: char, com: char) -> POut<
    (Seq<char>, Seq<Option<GVal>>),
> {
    let p1 = spec_sp_comment(s, p, com);
    if !(p <= p1 <= s.len()) {
        POut::Soft
    } else {
        match spec_key(s, p1) {
            POut::Parsed { end: p2, val: k } => {
                let p3 = spec_kv_sep_end(s, p2, esc);
                if p3 > p2 {
                    if p3 <= s.len() {
                        match spec_value_list(s, p3, esc, com) {
                            POut::Parsed { end, val } => POut::Parsed { end, val: (k, val) },
                            POut::Soft => POut::Soft,
                            POut::Hard => POut::Hard,
                        }
                    } else {
                        POut::Soft
                    }
                } else {
                    POut::Parsed { end: p2, val: (k, Seq::empty()) }
                }
            },
            POut::Soft => POut::Soft,
            POut::Hard => POut::Hard,
        }
    }
}

/// The field lines of a category: field lines while they apply.
pub open spec fn spec_key_values(s: Seq<char>, p: int, esc: char, com: char) -> POut<
    Seq<(Seq<char>, Seq<Option<GVal>>)>,
>
    decreases s.len() - p,
{
    match spec_key_value(s, p, esc, com) {
        POut::Parsed { end: q, val: kv } => {
            if p < q <= s.len() {
                match spec_key_values(s, q, esc, com) {
                    POut::Parsed { end, val } => POut::Parsed { end, val: seq![kv] + val },
                    e => e,
                }
            } else {
                POut::Parsed { end: p, val: Seq::empty() }
            }
        },
        POut::Soft => POut::Parsed { end: p, val: Seq::empty() },
        POut::Hard => POut::Hard,
    }
}

/// Explicit absences are dropped from a run once the line is parsed.
pub open spec fn flatten_run() -> spec_fn((Seq<char>, Seq<Option<GVal>>)) -> (Seq<char>, Seq<GVal>) {
    |kv: (Seq<char>, Seq<Option<GVal>>)| (kv.0, flatten_opts(kv.1))
}

pub open spec fn flatten_opts(vs: Seq<Option<GVal>>) -> Seq<GVal>
    decreases vs.len(),
{
    if vs.len() == 0 {
        Seq::empty()
    } else {
        match vs[0] {
            Some(v) => seq![v] + flatten_opts(vs.drop_first()),
            None => flatten_opts(vs.drop_first()),
        }
    }
}

/// A whole category: skip, a name of upper-case letters and underscores, its
/// field lines, then `END ` and the same name again.  A closing tag naming a
/// different category does not match.
pub open spec fn spec_object(s: Seq<char>, p: int, esc: char, com: char) -> POut<GObj> {
    let p1 = spec_sp_comment(s, p, com);
    if !(p <= p1 <= s.len()) {
        POut::Soft
    } else {
        let p2 = scan(s, p1, pred_head_char());
        if !(p1 < p2 <= s.len()) {
            POut::Soft
        } else {
            let name = s.subrange(p1, p2);
            let p3 = spec_multispace0(s, p2);
            if !(p2 <= p3 <= s.len()) {
                POut::Soft
            } else {
                match spec_key_values(s, p3, esc, com) {
                    POut::Parsed { end: p4, val: kvs } => {
                        if !(p3 <= p4 <= s.len()) {
                            POut::Soft
                        } else {
                            let p5 = spec_sp_comment(s, p4, com);
                            if !(p4 <= p5 <= s.len()) {
                                POut::Soft
                            } else if lit_at(s, p5, seq!['E', 'N', 'D', ' '] + name) {
                                let p6 = p5 + 4 + name.len();
                                let p7 = spec_multispace0(s, p6);
                                POut::Parsed {
                                    end: p7,
                                    val: GObj {
                                        name,
                                        runs: kvs.map_values(flatten_run()),
                                    },
                                }
                            } else {
                                POut::Soft
                            }
                        }
                    },
                    POut::Soft => POut::Soft,
                    POut::Hard => POut::Hard,
                }
            }
        }
    }
}

/// The categories of a file from position `p` on.  Where no category applies
/// the rest must be nothing but whitespace and comments; anything else is a
/// failure (`None`).
pub open spec fn spec_objects(s: Seq<char>, p: int, esc: char, com: char) -> Option<Seq<GObj>>
    decreases s.len() - p,
{
    if !(0 <= p < s.len()) {
        Some(Seq::empty())
    } else {
        match spec_object(s, p, esc, com) {
            POut::Parsed { end: q, val: o } => {
                if p < q <= s.len() {
                    match spec_objects(s, q, esc, com) {
                        Some(rest) => Some(seq![o] + rest),
                        None => None,
                    }
                } else {
                    None
                }
            },
            POut::Soft => {
                if spec_sp_comment(s, p, com) == s.len() {
                    Some(Seq::empty())
                } else {
                    None
                }
            },
            POut::Hard => None,
        }
    }
}

pub open spec fn lit_comment_char() -> Seq<char> {
    seq!['c', 'o', 'm', 'm', 'e', 'n', 't', '_', 'c', 'h', 'a', 'r']
}

pub open spec fn lit_escape_char() -> Seq<char> {
    seq!['e', 's', 'c', 'a', 'p', 'e', '_', 'c', 'h', 'a', 'r']
}

/// One preamble declaration: whitespace, `comment_char` or `escape_char`, at
/// least one space or tab, then any single character.  Returns the position
/// after it, whether it was the comment declaration, and the character.
pub open spec fn spec_one_special(s: Seq<char>, p: int) -> Option<(int, bool, char)> {
    if !(0 <= p <= s.len()) {
        None
    } else {
        let p1 = spec_multispace0(s, p);
        if !(p <= p1 <= s.len()) {
            None
        } else {
            let (is_com, p2) = if lit_at(s, p1, lit_comment_char()) {
                (true, p1 + 12)
            } else if lit_at(s, p1, lit_escape_char()) {
                (false, p1 + 11)
            } else {
                (true, -1)
            };
            if p2 < 0 {
                None
            } else {
                let p3 = scan(s, p2, pred_space());
                if p3 > p2 && p3 < s.len() {
                    Some((p3 + 1, is_com, s[p3]))
                } else {
                    None
                }
            }
        }
    }
}

/// The preamble: exactly two declarations, in either order (a repeated one
/// overrides).  Starting defaults are `%` for comments and `/` for escapes.
pub open spec fn spec_special_chars(s: Seq<char>) -> Option<(int, char, char)> {
    match spec_one_special(s, 0) {
        None => None,
        Some((p, k1, c1)) => match spec_one_special(s, p) {
            None => None,
            Some((q, k2, c2)) => {
                let com = if k2 {
                    c2
                } else if k1 {
                    c1
                } else {
                    '%'
                };
                let esc = if !k2 {
                    c2
                } else if !k1 {
                    c1
                } else {
                    '/'
                };
                Some((q, com, esc))
            },
        },
    }
}

/// A whole locale source file: with a preamble, its comment and escape
/// characters govern the rest; without one, comments start with `#` and
/// there is no escape character.
pub open spec fn spec_parse(s: Seq<char>) -> Option<Seq<GObj>> {
    match spec_special_chars(s) {
        Some((p, com, esc)) => if 0 <= p <= s.len() {
            spec_objects(s, p, esc, com)
        } else {
            None
        },
        None => spec_objects(s, 0, '\u{0}', '#'),
    }
}

/// A locale name: letters, an optional `_` territory of letters, an optional
/// `@` modifier of letters, consuming the whole input; the language part must
/// not be `translit`.
pub open spec fn spec_parse_lang(s: Seq<char>) -> Option<
    (Seq<char>, Option<Seq<char>>, Option<Seq<char>>),
> {
    let p1 = scan(s, 0, pred_alpha());
    if p1 <= 0 {
        None
    } else {
        let lang = s.subrange(0, p1);
        if lang == seq!['t', 'r', 'a', 'n', 's', 'l', 'i', 't'] {
            None
        } else {
            let (p2, country) = if p1 < s.len() && s[p1] == '_' && scan(s, p1 + 1, pred_alpha()) > p1 + 1 {
                (scan(s, p1 + 1, pred_alpha()), Some(s.subrange(p1 + 1, scan(s, p1 + 1, pred_alpha()))))
            } else {
                (p1, None::<Seq<char>>)
            };
            let (p3, variant) = if p2 < s.len() && s[p2] == '@' && scan(s, p2 + 1, pred_alpha()) > p2 + 1 {
                (scan(s, p2 + 1, pred_alpha()), Some(s.subrange(p2 + 1, scan(s, p2 + 1, pred_alpha()))))
            } else {
                (p2, None::<Seq<char>>)
            };
            if p3 == s.len() {
                Some((lang, country, variant))
            } else {
                None
            }
        }
    }
}

} // verus!
