//! The canonical textual form of a value, and its round trip.
//!
//! A value rendered here parses back: an integer as an integer literal, and
//! any textual value — bareword or quoted — as a quoted string with the same
//! content.  The rendering uses the default special characters (`%` for
//! comments, `/` for escapes) and escapes exactly the quote, the escape
//! character and `<` inside quoted content.

use vstd::prelude::*;

use crate::chars::string_of;
use crate::grammar::{
    dec_val, digit_val, int_lit_val, is_digit, is_int_literal, lit_at, pred_int_char, scan,
    spec_sp, spec_string, spec_string_body, spec_value, GVal, POut,
};
use crate::parser::Value;

verus! {

/// Must a character be escaped inside quoted content?
pub open spec fn needs_escape(c: char) -> bool {
    c == '"' || c == '/' || c == '<'
}

/// Quoted-string content with `"`, `/` and `<` escaped by `/`.
pub open spec fn esc_content(s: Seq<char>) -> Seq<char>
    decreases s.len(),
{
    if s.len() == 0 {
        Seq::empty()
    } else if needs_escape(s[0]) {
        seq!['/', s[0]] + esc_content(s.drop_first())
    } else {
        seq![s[0]] + esc_content(s.drop_first())
    }
}

pub open spec fn digit_char(d: int) -> char {
    if d == 0 {
        '0'
    } else if d == 1 {
        '1'
    } else if d == 2 {
        '2'
    } else if d == 3 {
        '3'
    } else if d == 4 {
        '4'
    } else if d == 5 {
        '5'
    } else if d == 6 {
        '6'
    } else if d == 7 {
        '7'
    } else if d == 8 {
        '8'
    } else {
        '9'
    }
}

/// The decimal digits of `n`, most significant first.
pub open spec fn digits_of(n: nat) -> Seq<char>
    decreases n,
{
    if n < 10 {
        seq![digit_char(n as int)]
    } else {
        digits_of(n / 10).push(digit_char((n % 10) as int))
    }
}

/// The canonical textual form: integers as decimal literals, any textual
/// value quoted.
pub open spec fn spec_render(v: GVal) -> Seq<char> {
    match v {
        GVal::Int(n) => if n < 0 {
            seq!['-'] + digits_of((-n) as nat)
        } else {
            digits_of(n as nat)
        },
        GVal::Raw(s) => seq!['"'] + esc_content(s) + seq!['"'],
        GVal::Str(s) => seq!['"'] + esc_content(s) + seq!['"'],
    }
}

/// What a value reads back as: `Raw` and `Str` are interchangeable as
/// textual, so both come back quoted.
pub open spec fn parsed_form(v: GVal) -> GVal {
    match v {
        GVal::Raw(s) => GVal::Str(s),
        other => other,
    }
}

// ---------------------------------------------------------------------------
// Executable rendering
// ---------------------------------------------------------------------------

fn push_digits(out: &mut Vec<char>, n: u64)
    ensures
        final(out)@ == old(out)@ + digits_of(n as nat),
    decreases n,
{
    if n < 10 {
        let c = match n {
            0 => '0',
            1 => '1',
            2 => '2',
            3 => '3',
            4 => '4',
            5 => '5',
            6 => '6',
            7 => '7',
            8 => '8',
            _ => '9',
        };
        proof {
            assert(c == digit_char(n as int));
        }
        out.push(c);
        proof {
            assert(out@ =~= old(out)@ + digits_of(n as nat));
        }
    } else {
        push_digits(out, n / 10);
        let d = n % 10;
        let c = match d {
            0 => '0',
            1 => '1',
            2 => '2',
            3 => '3',
            4 => '4',
            5 => '5',
            6 => '6',
            7 => '7',
            8 => '8',
            _ => '9',
        };
        proof {
            assert(c == digit_char(d as int));
        }
        out.push(c);
        proof {
            assert(out@ =~= old(out)@ + digits_of(n as nat));
        }
    }
}

fn push_escaped(out: &mut Vec<char>, v: &Vec<char>)
    ensures
        final(out)@ == old(out)@ + esc_content(v@),
{
    let n = v.len();
    let mut i: usize = 0;
    proof {
        assert(v@.skip(0) =~= v@);
        assert(out@ + esc_content(v@.skip(0)) =~= old(out)@ + esc_content(v@));
    }
    while i < n
        invariant
            i <= n,
            n == v@.len(),
            out@ + esc_content(v@.skip(i as int)) == old(out)@ + esc_content(v@),
        decreases n - i,
    {
        let ghost rest = v@.skip(i as int);
        proof {
            assert(rest[0] == v@[i as int]);
            assert(rest.drop_first() =~= v@.skip(i + 1));
        }
        let c = v[i];
        let ghost out_pre = out@;
        if c == '"' || c == '/' || c == '<' {
            out.push('/');
            out.push(c);
            proof {
                assert(out@ =~= out_pre + seq!['/', c]);
                assert((out_pre + seq!['/', c]) + esc_content(v@.skip(i + 1)) =~= out_pre + (seq![
                    '/',
                    c,
                ] + esc_content(v@.skip(i + 1))));
            }
        } else {
            out.push(c);
            proof {
                assert(out@ =~= out_pre + seq![c]);
                assert((out_pre + seq![c]) + esc_content(v@.skip(i + 1)) =~= out_pre + (seq![c]
                    + esc_content(v@.skip(i + 1))));
            }
        }
        i = i + 1;
    }
    proof {
        assert(v@.skip(n as int) =~= Seq::<char>::empty());
        assert(esc_content(Seq::<char>::empty()) =~= Seq::<char>::empty());
        assert(out@ + Seq::<char>::empty() =~= out@);
    }
}

impl Value {
    /// The canonical textual form of this value.
    pub fn render(&self) -> (r: String)
        ensures
            r@ == spec_render(self.deep_view()),
    {
        let mut out: Vec<char> = Vec::new();
        match self {
            Value::Integer(n) => {
                let n = *n;
                if n < 0 {
                    out.push('-');
                    let mag: u64 = if n == i64::MIN {
                        9223372036854775808u64
                    } else {
                        (-n) as u64
                    };
                    proof {
                        assert(out@ =~= seq!['-']);
                    }
                    push_digits(&mut out, mag);
                    proof {
                        assert(out@ =~= seq!['-'] + digits_of(mag as nat));
                    }
                } else {
                    push_digits(&mut out, n as u64);
                    proof {
                        assert(Seq::<char>::empty() + digits_of(n as nat) =~= digits_of(n as nat));
                    }
                }
            },
            Value::Raw(s) => {
                out.push('"');
                let cs = crate::chars::to_chars(s.as_str());
                proof {
                    assert(out@ =~= seq!['"']);
                }
                push_escaped(&mut out, &cs);
                out.push('"');
                proof {
                    assert(out@ =~= seq!['"'] + esc_content(s@) + seq!['"']);
                }
            },
            Value::String(s) => {
                out.push('"');
                let cs = crate::chars::to_chars(s.as_str());
                proof {
                    assert(out@ =~= seq!['"']);
                }
                push_escaped(&mut out, &cs);
                out.push('"');
                proof {
                    assert(out@ =~= seq!['"'] + esc_content(s@) + seq!['"']);
                }
            },
        }
        string_of(&out)
    }
}

// ---------------------------------------------------------------------------
// The round trip
// ---------------------------------------------------------------------------

proof fn lemma_digits_are_digits(n: nat)
    ensures
        digits_of(n).len() >= 1,
        forall|i: int| 0 <= i < digits_of(n).len() ==> is_digit(#[trigger] digits_of(n)[i]),
        is_digit(digits_of(n)[0]),
    decreases n,
{
    if n < 10 {
        assert(is_digit(digit_char(n as int)));
    } else {
        lemma_digits_are_digits(n / 10);
        assert(is_digit(digit_char((n % 10) as int)));
        assert forall|i: int| 0 <= i < digits_of(n).len() implies is_digit(
            #[trigger] digits_of(n)[i],
        ) by {
            if i < digits_of(n / 10).len() {
                assert(digits_of(n)[i] == digits_of(n / 10)[i]);
            }
        }
    }
}

/// Reading the digits back gives the number.
proof fn lemma_digits_value(n: nat)
    ensures
        dec_val(digits_of(n)) == n,
    decreases n,
{
    if n < 10 {
        assert(digit_val(digit_char(n as int)) == n);
        assert(digits_of(n).drop_last() =~= Seq::<char>::empty());
        assert(dec_val(Seq::<char>::empty()) == 0);
        assert(digits_of(n).last() == digit_char(n as int));
    } else {
        lemma_digits_value(n / 10);
        assert(digit_val(digit_char((n % 10) as int)) == n % 10);
        assert(digits_of(n).drop_last() =~= digits_of(n / 10));
        assert(dec_val(digits_of(n)) == dec_val(digits_of(n / 10)) * 10 + digit_val(
            digits_of(n).last(),
        ));
        assert(n / 10 * 10 + n % 10 == n) by (nonlinear_arith);
    }
}

/// Escaped content between quotes reads back as the content.
proof fn lemma_esc_round_trip(s: Seq<char>, p: int, sc: Seq<char>)
    requires
        0 <= p,
        s.len() == p + esc_content(sc).len() + 1,
        s.subrange(p, s.len() as int) == esc_content(sc) + seq!['"'],
    ensures
        spec_string_body(s, p, '/') == (POut::Parsed {
            end: s.len() as int,
            val: sc,
        }),
    decreases sc.len(),
{
    if sc.len() == 0 {
        assert(esc_content(sc) =~= Seq::<char>::empty());
        assert(s[p] == (esc_content(sc) + seq!['"'])[0]);
        assert(s[p] == '"');
        assert(sc =~= Seq::<char>::empty());
    } else {
        let c = sc[0];
        let e = esc_content(sc);
        assert(e =~= if needs_escape(c) {
            seq!['/', c] + esc_content(sc.drop_first())
        } else {
            seq![c] + esc_content(sc.drop_first())
        });
        if needs_escape(c) {
            assert(s[p] == (e + seq!['"'])[0]);
            assert(s[p] == '/');
            assert(s[p + 1] == (e + seq!['"'])[1]);
            assert(s[p + 1] == c);
            assert(c != '\n');
            assert forall|i: int| 0 <= i < s.len() - p - 2 implies s.subrange(
                p + 2,
                s.len() as int,
            )[i] == (esc_content(sc.drop_first()) + seq!['"'])[i] by {
                assert(s.subrange(p, s.len() as int)[i + 2] == s[p + 2 + i]);
                assert((e + seq!['"'])[i + 2] == (esc_content(sc.drop_first()) + seq!['"'])[i]);
            }
            assert(s.subrange(p + 2, s.len() as int) =~= esc_content(sc.drop_first()) + seq![
                '"',
            ]);
            lemma_esc_round_trip(s, p + 2, sc.drop_first());
            assert(seq![c] + sc.drop_first() =~= sc);
        } else {
            assert(s[p] == (e + seq!['"'])[0]);
            assert(s[p] == c);
            assert(c != '/' && c != '"' && c != '<');
            assert forall|i: int| 0 <= i < s.len() - p - 1 implies s.subrange(
                p + 1,
                s.len() as int,
            )[i] == (esc_content(sc.drop_first()) + seq!['"'])[i] by {
                assert(s.subrange(p, s.len() as int)[i + 1] == s[p + 1 + i]);
                assert((e + seq!['"'])[i + 1] == (esc_content(sc.drop_first()) + seq!['"'])[i]);
            }
            assert(s.subrange(p + 1, s.len() as int) =~= esc_content(sc.drop_first()) + seq![
                '"',
            ]);
            lemma_esc_round_trip(s, p + 1, sc.drop_first());
            assert(seq![c] + sc.drop_first() =~= sc);
        }
    }
}

proof fn lemma_scan_digits(s: Seq<char>, p: int)
    requires
        0 <= p <= s.len(),
        forall|i: int| p <= i < s.len() ==> crate::grammar::is_int_char(#[trigger] s[i]),
    ensures
        scan(s, p, pred_int_char()) == s.len(),
    decreases s.len() - p,
{
    if p < s.len() {
        lemma_scan_digits(s, p + 1);
    }
}

/// Round trip: the canonical textual form of a value parses back to an
/// equal value — equal up to the interchangeability of bareword and quoted
/// text.  The whole rendering is consumed, under the default comment (`%`)
/// and escape (`/`) characters.
pub proof fn lemma_value_round_trip(v: GVal)
    requires
        v matches GVal::Int(n) ==> i64::MIN <= n <= i64::MAX,
    ensures
        spec_value(spec_render(v), 0, '/', '%') == (POut::Parsed {
            end: spec_render(v).len() as int,
            val: parsed_form(v),
        }),
{
    let s = spec_render(v);
    match v {
        GVal::Int(n) => {
            let mag = if n < 0 {
                (-n) as nat
            } else {
                n as nat
            };
            lemma_digits_are_digits(mag);
            lemma_digits_value(mag);
            if n < 0 {
                assert(s =~= seq!['-'] + digits_of(mag));
                assert(s[0] == '-');
                assert(forall|i: int| 1 <= i < s.len() ==> #[trigger] s[i] == digits_of(mag)[i - 1]);
                assert(spec_sp(s, 0, '/', '%') == 0);
                lemma_scan_digits(s, 0);
                let t = s.subrange(0, s.len() as int);
                assert(t =~= s);
                assert(t.drop_first() =~= digits_of(mag));
                assert(is_int_literal(t));
                assert(int_lit_val(t) == n);
            } else {
                assert(s =~= digits_of(mag));
                assert(is_digit(s[0]));
                assert(spec_sp(s, 0, '/', '%') == 0);
                lemma_scan_digits(s, 0);
                let t = s.subrange(0, s.len() as int);
                assert(t =~= s);
                assert(is_int_literal(t));
                assert(t[0] != '-');
                assert(int_lit_val(t) == n);
            }
        },
        GVal::Raw(sc) => {
            lemma_text_round_trip(sc);
        },
        GVal::Str(sc) => {
            lemma_text_round_trip(sc);
        },
    }
}

/// The quoted rendering of textual content parses back as a string value.
proof fn lemma_text_round_trip(sc: Seq<char>)
    ensures
        spec_value(seq!['"'] + esc_content(sc) + seq!['"'], 0, '/', '%') == (POut::Parsed {
            end: (esc_content(sc).len() + 2) as int,
            val: GVal::Str(sc),
        }),
{
    let s = seq!['"'] + esc_content(sc) + seq!['"'];
    assert(s[0] == '"');
    assert(spec_sp(s, 0, '/', '%') == 0);
    assert(scan(s, 0, pred_int_char()) == 0);
    if sc.len() == 0 {
        assert(esc_content(sc) =~= Seq::<char>::empty());
        assert(sc =~= Seq::<char>::empty());
        assert(s.len() == 2);
        assert(s[1] == '"');
        assert(s.subrange(0, 2) =~= seq!['"', '"']);
        assert(lit_at(s, 0, seq!['"', '"']));
        assert(spec_string(s, 0, '/') == (POut::Parsed {
            end: 2,
            val: Seq::<char>::empty(),
        }));
    } else {
        let e = esc_content(sc);
        assert(e.len() > 0) by {
            assert(e =~= if needs_escape(sc[0]) {
                seq!['/', sc[0]] + esc_content(sc.drop_first())
            } else {
                seq![sc[0]] + esc_content(sc.drop_first())
            });
        }
        assert(s[1] == e[0]);
        assert(e[0] != '"') by {
            assert(e =~= if needs_escape(sc[0]) {
                seq!['/', sc[0]] + esc_content(sc.drop_first())
            } else {
                seq![sc[0]] + esc_content(sc.drop_first())
            });
        }
        assert(!lit_at(s, 0, seq!['"', '"'])) by {
            if lit_at(s, 0, seq!['"', '"']) {
                assert(s.subrange(0, 2)[1] == '"');
            }
        }
        assert(s.subrange(1, s.len() as int) =~= e + seq!['"']);
        lemma_esc_round_trip(s, 1, sc);
    }
}

} // verus!
