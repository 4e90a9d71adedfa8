//! Repairs applied to `LC_TIME` categories before unification.
//!
//! A few locales lack a `t_fmt_ampm` field, and some express `d_t_fmt` in
//! terms of other fields (`%x`, `%X`, `%r`); both are normalized here so
//! that every locale carries self-contained time formats.

use vstd::prelude::*;

use crate::grammar::{GObj, GVal};
use crate::parser::{Object, Value};
use crate::schema::repl_all;

verus! {

pub open spec fn lit_lc_time() -> Seq<char> {
    seq!['L', 'C', '_', 'T', 'I', 'M', 'E']
}

pub open spec fn lit_t_fmt_ampm() -> Seq<char> {
    seq!['t', '_', 'f', 'm', 't', '_', 'a', 'm', 'p', 'm']
}

pub open spec fn lit_am_pm() -> Seq<char> {
    seq!['a', 'm', '_', 'p', 'm']
}

pub open spec fn lit_d_fmt() -> Seq<char> {
    seq!['d', '_', 'f', 'm', 't']
}

pub open spec fn lit_t_fmt() -> Seq<char> {
    seq!['t', '_', 'f', 'm', 't']
}

pub open spec fn lit_d_t_fmt() -> Seq<char> {
    seq!['d', '_', 't', '_', 'f', 'm', 't']
}

/// The fallback 12-hour time format, as in the POSIX locale.
pub open spec fn lit_posix_ampm() -> Seq<char> {
    seq!['%', 'l', ':', '%', 'M', ':', '%', 'S', ' ', '%', 'p']
}

/// Keys whose presence means the locale already settles its 12-hour format:
/// its own `t_fmt_ampm`, or an alias that will supply one.
pub open spec fn settles_t_fmt_ampm(key: Seq<char>) -> bool {
    ||| key == lit_t_fmt_ampm()
    ||| key == seq!['c', 'o', 'p', 'y']
    ||| key == seq!['i', 'n', 's', 'e', 'r', 't']
}

pub open spec fn has_t_fmt_ampm(runs: Seq<(Seq<char>, Seq<GVal>)>) -> bool {
    exists|i: int| 0 <= i < runs.len() && settles_t_fmt_ampm(#[trigger] runs[i].0)
}

/// Is this run an `am_pm` with exactly two quoted strings?
pub open spec fn is_am_pm_pair(run: (Seq<char>, Seq<GVal>)) -> bool {
    run.0 == lit_am_pm() && run.1.len() == 2 && run.1[0] is Str && run.1[1] is Str
}

/// Whether the last `am_pm` pair in the runs holds two empty strings;
/// `false` where there is none.
pub open spec fn am_pm_empty(runs: Seq<(Seq<char>, Seq<GVal>)>) -> bool
    decreases runs.len(),
{
    if runs.len() == 0 {
        false
    } else if is_am_pm_pair(runs.last()) {
        runs.last().1[0]->Str_0.len() == 0 && runs.last().1[1]->Str_0.len() == 0
    } else {
        am_pm_empty(runs.drop_last())
    }
}

/// One category after the `t_fmt_ampm` repair: an `LC_TIME` without the
/// field (and without an alias) gains one — empty where `am_pm` is empty,
/// the POSIX format otherwise.
pub open spec fn fix_tfa_obj(o: GObj) -> GObj {
    if o.name != lit_lc_time() || has_t_fmt_ampm(o.runs) {
        o
    } else {
        let v = if am_pm_empty(o.runs) {
            GVal::Str(Seq::empty())
        } else {
            GVal::Str(lit_posix_ampm())
        };
        GObj { name: o.name, runs: o.runs.push((lit_t_fmt_ampm(), seq![v])) }
    }
}

pub open spec fn fix_tfa(objs: Seq<GObj>) -> Seq<GObj> {
    Seq::new(objs.len(), |i: int| fix_tfa_obj(objs[i]))
}

/// The last single-string value of `key` in the runs; empty where there is
/// none.
pub open spec fn last_single_str(runs: Seq<(Seq<char>, Seq<GVal>)>, key: Seq<char>) -> Seq<char>
    decreases runs.len(),
{
    if runs.len() == 0 {
        Seq::empty()
    } else if runs.last().0 == key && runs.last().1.len() == 1 && runs.last().1[0] is Str {
        runs.last().1[0]->Str_0
    } else {
        last_single_str(runs.drop_last(), key)
    }
}

/// `%x`, `%X` and `%r` substituted, in that order.
pub open spec fn inline_refs(
    s: Seq<char>,
    d: Seq<char>,
    t: Seq<char>,
    ta: Seq<char>,
) -> Seq<char> {
    repl_all(repl_all(repl_all(s, seq!['%', 'x'], d), seq!['%', 'X'], t), seq!['%', 'r'], ta)
}

/// One run after the `d_t_fmt` repair.
pub open spec fn fix_dtf_run(
    run: (Seq<char>, Seq<GVal>),
    d: Seq<char>,
    t: Seq<char>,
    ta: Seq<char>,
) -> (Seq<char>, Seq<GVal>) {
    if run.0 == lit_d_t_fmt() && run.1.len() > 0 && run.1[0] is Str {
        (run.0, run.1.update(0, GVal::Str(inline_refs(run.1[0]->Str_0, d, t, ta))))
    } else {
        run
    }
}

/// One category after the `d_t_fmt` repair: in `LC_TIME`, the first value
/// of every `d_t_fmt` run has `%x`, `%X` and `%r` replaced by the locale's
/// own `d_fmt`, `t_fmt` and `t_fmt_ampm`.
pub open spec fn fix_dtf_obj(o: GObj) -> GObj {
    if o.name != lit_lc_time() {
        o
    } else {
        let d = last_single_str(o.runs, lit_d_fmt());
        let t = last_single_str(o.runs, lit_t_fmt());
        let ta = last_single_str(o.runs, lit_t_fmt_ampm());
        GObj {
            name: o.name,
            runs: Seq::new(o.runs.len(), |i: int| fix_dtf_run(o.runs[i], d, t, ta)),
        }
    }
}

pub open spec fn fix_dtf(objs: Seq<GObj>) -> Seq<GObj> {
    Seq::new(objs.len(), |i: int| fix_dtf_obj(objs[i]))
}

/// No `d_t_fmt` run in an `LC_TIME` category is empty: the repair reads the
/// run's first value.
pub open spec fn dtf_runs_nonempty(objs: Seq<GObj>) -> bool {
    forall|i: int, j: int|
        0 <= i < objs.len() && 0 <= j < objs[i].runs.len() && objs[i].name == lit_lc_time()
            && (#[trigger] objs[i].runs[j]).0 == lit_d_t_fmt() ==> objs[i].runs[j].1.len() > 0
}

// ---------------------------------------------------------------------------
// Executable repairs
// ---------------------------------------------------------------------------

fn eq_lc_time(name: &String) -> (r: bool)
    ensures
        r == (name@ == lit_lc_time()),
{
    let l: Vec<char> = vec!['L', 'C', '_', 'T', 'I', 'M', 'E'];
    proof {
        assert(l@ =~= lit_lc_time());
    }
    crate::generator::string_eq_lit(name, &l)
}

/// Adds a `t_fmt_ampm` field to every `LC_TIME` category that lacks one and
/// does not alias another locale: an empty format where `am_pm` is a pair
/// of empty strings, the POSIX format otherwise.
pub fn validate_and_fix_t_fmt_ampm(objects: &mut Vec<Object>)
    ensures
        final(objects).deep_view() == fix_tfa(old(objects).deep_view()),
{
    let ghost orig = old(objects).deep_view();
    let n = objects.len();
    let mut i: usize = 0;
    while i < n
        invariant
            i <= n,
            n == objects@.len(),
            objects.deep_view().len() == orig.len(),
            forall|k: int| 0 <= k < i ==> objects.deep_view()[k] == fix_tfa_obj(orig[k]),
            forall|k: int| i <= k < n ==> objects.deep_view()[k] == orig[k],
        decreases n - i,
    {
        let ghost go = orig[i as int];
        proof {
            assert(objects.deep_view()[i as int] == objects@[i as int].deep_view());
        }
        if eq_lc_time(&objects[i].name) {
            let ghost gobjs = objects.deep_view();
            let o = objects.remove(i);
            let Object { name, values } = o;
            let mut values = values;
            proof {
                assert(go == GObj { name: name@, runs: values.deep_view() });
            }
            let tfa: Vec<char> = vec!['t', '_', 'f', 'm', 't', '_', 'a', 'm', 'p', 'm'];
            let cpy: Vec<char> = vec!['c', 'o', 'p', 'y'];
            let ins: Vec<char> = vec!['i', 'n', 's', 'e', 'r', 't'];
            let apm: Vec<char> = vec!['a', 'm', '_', 'p', 'm'];
            proof {
                assert(tfa@ =~= lit_t_fmt_ampm());
                assert(cpy@ =~= seq!['c', 'o', 'p', 'y']);
                assert(ins@ =~= seq!['i', 'n', 's', 'e', 'r', 't']);
                assert(apm@ =~= lit_am_pm());
            }
            let m = values.len();
            let mut found = false;
            let mut empty_pair = false;
            let mut j: usize = 0;
            while j < m
                invariant
                    j <= m,
                    m == values@.len(),
                    values.deep_view() == go.runs,
                    found == has_t_fmt_ampm(go.runs.take(j as int)),
                    empty_pair == am_pm_empty(go.runs.take(j as int)),
                    tfa@ == lit_t_fmt_ampm(),
                    cpy@ == seq!['c', 'o', 'p', 'y'],
                    ins@ == seq!['i', 'n', 's', 'e', 'r', 't'],
                    apm@ == lit_am_pm(),
                decreases m - j,
            {
                let ghost run = go.runs[j as int];
                proof {
                    assert(values.deep_view()[j as int] == (values@[j as int].0@, values@[
                        j as int
                    ].1.deep_view()));
                    assert(go.runs.take(j + 1).drop_last() =~= go.runs.take(j as int));
                    assert(go.runs.take(j + 1).last() == run);
                }
                let key_is_settling = crate::generator::string_eq_lit(&values[j].0, &tfa)
                    || crate::generator::string_eq_lit(&values[j].0, &cpy)
                    || crate::generator::string_eq_lit(&values[j].0, &ins);
                if key_is_settling {
                    found = true;
                }
                proof {
                    assert(has_t_fmt_ampm(go.runs.take(j + 1)) == (has_t_fmt_ampm(
                        go.runs.take(j as int),
                    ) || settles_t_fmt_ampm(run.0))) by {
                        if has_t_fmt_ampm(go.runs.take(j as int)) {
                            let w = choose|w: int|
                                0 <= w < go.runs.take(j as int).len() && settles_t_fmt_ampm(
                                    #[trigger] go.runs.take(j as int)[w].0,
                                );
                            assert(go.runs.take(j + 1)[w].0 == go.runs.take(j as int)[w].0);
                        }
                        if settles_t_fmt_ampm(run.0) {
                            assert(go.runs.take(j + 1)[j as int].0 == run.0);
                        }
                        if has_t_fmt_ampm(go.runs.take(j + 1)) {
                            let w = choose|w: int|
                                0 <= w < go.runs.take(j + 1).len() && settles_t_fmt_ampm(
                                    #[trigger] go.runs.take(j + 1)[w].0,
                                );
                            if w < j {
                                assert(go.runs.take(j as int)[w].0 == go.runs.take(j + 1)[w].0);
                            }
                        }
                    }
                }
                if crate::generator::string_eq_lit(&values[j].0, &apm) && values[j].1.len() == 2 {
                    let pair_shape = matches!(values[j].1[0], Value::String(_)) && matches!(
                        values[j].1[1],
                        Value::String(_),
                    );
                    proof {
                        assert(values@[j as int].1.deep_view()[0] == values@[j as int].1@[
                            0
                        ].deep_view());
                        assert(values@[j as int].1.deep_view()[1] == values@[j as int].1@[
                            1
                        ].deep_view());
                    }
                    if pair_shape {
                        let a_empty = match &values[j].1[0] {
                            Value::String(s) => s.as_str().is_empty(),
                            _ => false,
                        };
                        let b_empty = match &values[j].1[1] {
                            Value::String(s) => s.as_str().is_empty(),
                            _ => false,
                        };
                        empty_pair = a_empty && b_empty;
                    }
                }
                j = j + 1;
            }
            proof {
                assert(go.runs.take(m as int) =~= go.runs);
            }
            if !found {
                let text: String = if empty_pair {
                    String::new()
                } else {
                    let fmt: Vec<char> = vec![
                        '%',
                        'l',
                        ':',
                        '%',
                        'M',
                        ':',
                        '%',
                        'S',
                        ' ',
                        '%',
                        'p',
                    ];
                    proof {
                        assert(fmt@ =~= lit_posix_ampm());
                    }
                    crate::chars::string_of(&fmt)
                };
                let key = crate::chars::string_of(&tfa);
                let mut vs: Vec<Value> = Vec::new();
                vs.push(Value::String(text));
                proof {
                    assert(vs.deep_view() =~= seq![
                        if am_pm_empty(go.runs) {
                            GVal::Str(Seq::empty())
                        } else {
                            GVal::Str(lit_posix_ampm())
                        },
                    ]);
                }
                values.push((key, vs));
                proof {
                    assert(values.deep_view() =~= fix_tfa_obj(go).runs);
                }
            }
            objects.insert(i, Object { name, values });
            proof {
                assert(objects.deep_view() =~= gobjs.update(i as int, fix_tfa_obj(go)));
            }
        } else {
            proof {
                assert(fix_tfa_obj(go) == go);
            }
        }
        i = i + 1;
    }
    proof {
        assert(objects.deep_view() =~= fix_tfa(orig));
    }
}

/// Inlines `%x`, `%X` and `%r` in every `LC_TIME` `d_t_fmt`: each refers to
/// the locale's own `d_fmt`, `t_fmt` and `t_fmt_ampm`, and carrying the
/// text makes the format self-contained.
pub fn validate_and_fix_d_t_fmt(objects: &mut Vec<Object>)
    requires
        dtf_runs_nonempty(old(objects).deep_view()),
    ensures
        final(objects).deep_view() == fix_dtf(old(objects).deep_view()),
{
    let ghost orig = old(objects).deep_view();
    let n = objects.len();
    let mut i: usize = 0;
    while i < n
        invariant
            i <= n,
            n == objects@.len(),
            objects.deep_view().len() == orig.len(),
            dtf_runs_nonempty(orig),
            forall|k: int| 0 <= k < i ==> objects.deep_view()[k] == fix_dtf_obj(orig[k]),
            forall|k: int| i <= k < n ==> objects.deep_view()[k] == orig[k],
        decreases n - i,
    {
        let ghost go = orig[i as int];
        proof {
            assert(objects.deep_view()[i as int] == objects@[i as int].deep_view());
        }
        if eq_lc_time(&objects[i].name) {
            let ghost gobjs = objects.deep_view();
            let o = objects.remove(i);
            let Object { name, values } = o;
            let mut values = values;
            proof {
                assert(go == GObj { name: name@, runs: values.deep_view() });
            }
            let dfm: Vec<char> = vec!['d', '_', 'f', 'm', 't'];
            let tfm: Vec<char> = vec!['t', '_', 'f', 'm', 't'];
            let tfa: Vec<char> = vec!['t', '_', 'f', 'm', 't', '_', 'a', 'm', 'p', 'm'];
            let dtf: Vec<char> = vec!['d', '_', 't', '_', 'f', 'm', 't'];
            proof {
                assert(dfm@ =~= lit_d_fmt());
                assert(tfm@ =~= lit_t_fmt());
                assert(tfa@ =~= lit_t_fmt_ampm());
                assert(dtf@ =~= lit_d_t_fmt());
            }
            let m = values.len();
            let mut d: String = String::new();
            let mut t: String = String::new();
            let mut ta: String = String::new();
            let mut j: usize = 0;
            while j < m
                invariant
                    j <= m,
                    m == values@.len(),
                    values.deep_view() == go.runs,
                    d@ == last_single_str(go.runs.take(j as int), lit_d_fmt()),
                    t@ == last_single_str(go.runs.take(j as int), lit_t_fmt()),
                    ta@ == last_single_str(go.runs.take(j as int), lit_t_fmt_ampm()),
                    dfm@ == lit_d_fmt(),
                    tfm@ == lit_t_fmt(),
                    tfa@ == lit_t_fmt_ampm(),
                decreases m - j,
            {
                let ghost run = go.runs[j as int];
                proof {
                    assert(values.deep_view()[j as int] == (values@[j as int].0@, values@[
                        j as int
                    ].1.deep_view()));
                    assert(go.runs.take(j + 1).drop_last() =~= go.runs.take(j as int));
                    assert(go.runs.take(j + 1).last() == run);
                }
                if values[j].1.len() == 1 {
                    proof {
                        assert(values@[j as int].1.deep_view()[0] == values@[j as int].1@[
                            0
                        ].deep_view());
                    }
                    let is_str = matches!(values[j].1[0], Value::String(_));
                    if is_str {
                        if crate::generator::string_eq_lit(&values[j].0, &dfm) {
                            match &values[j].1[0] {
                                Value::String(s) => {
                                    d = s.clone();
                                },
                                _ => {},
                            }
                        }
                        if crate::generator::string_eq_lit(&values[j].0, &tfm) {
                            match &values[j].1[0] {
                                Value::String(s) => {
                                    t = s.clone();
                                },
                                _ => {},
                            }
                        }
                        if crate::generator::string_eq_lit(&values[j].0, &tfa) {
                            match &values[j].1[0] {
                                Value::String(s) => {
                                    ta = s.clone();
                                },
                                _ => {},
                            }
                        }
                    }
                }
                j = j + 1;
            }
            proof {
                assert(go.runs.take(m as int) =~= go.runs);
            }
            let ghost gd = d@;
            let ghost gt = t@;
            let ghost gta = ta@;
            let px: Vec<char> = vec!['%', 'x'];
            let pbx: Vec<char> = vec!['%', 'X'];
            let pr: Vec<char> = vec!['%', 'r'];
            proof {
                assert(px@ =~= seq!['%', 'x']);
                assert(pbx@ =~= seq!['%', 'X']);
                assert(pr@ =~= seq!['%', 'r']);
            }
            let dv = crate::chars::to_chars(d.as_str());
            let tv = crate::chars::to_chars(t.as_str());
            let tav = crate::chars::to_chars(ta.as_str());
            let mut j2: usize = 0;
            while j2 < m
                invariant
                    j2 <= m,
                    m == values@.len(),
                    m == go.runs.len(),
                    dtf_runs_nonempty(orig),
                    0 <= i < orig.len(),
                    go == orig[i as int],
                    go.name == lit_lc_time(),
                    dv@ == gd,
                    tv@ == gt,
                    tav@ == gta,
                    px@ == seq!['%', 'x'],
                    pbx@ == seq!['%', 'X'],
                    pr@ == seq!['%', 'r'],
                    dtf@ == lit_d_t_fmt(),
                    forall|k: int| 0 <= k < j2 ==> #[trigger] values.deep_view()[k] == fix_dtf_run(
                        go.runs[k],
                        gd,
                        gt,
                        gta,
                    ),
                    forall|k: int| j2 <= k < m ==> #[trigger] values.deep_view()[k] == go.runs[k],
                decreases m - j2,
            {
                let ghost run = go.runs[j2 as int];
                proof {
                    assert(values.deep_view()[j2 as int] == (values@[j2 as int].0@, values@[
                        j2 as int
                    ].1.deep_view()));
                }
                if crate::generator::string_eq_lit(&values[j2].0, &dtf) {
                    proof {
                        assert((orig[i as int].runs[j2 as int]).0 == lit_d_t_fmt());
                        assert(orig[i as int].runs[j2 as int].1.len() > 0);
                    }
                    let ghost gvals = values.deep_view();
                    let (k0, vs) = values.remove(j2);
                    let mut vs = vs;
                    proof {
                        assert(vs.deep_view()[0] == vs@[0].deep_view());
                    }
                    let v0 = vs.remove(0);
                    match v0 {
                        Value::String(s) => {
                            let sv = crate::chars::to_chars(s.as_str());
                            let r1 = crate::generator::repl_pass(&sv, &px, &dv);
                            let r2 = crate::generator::repl_pass(&r1, &pbx, &tv);
                            let r3 = crate::generator::repl_pass(&r2, &pr, &tav);
                            let news = crate::chars::string_of(&r3);
                            vs.insert(0, Value::String(news));
                            proof {
                                assert(vs.deep_view() =~= run.1.update(
                                    0,
                                    GVal::Str(inline_refs(run.1[0]->Str_0, gd, gt, gta)),
                                ));
                            }
                        },
                        other => {
                            vs.insert(0, other);
                            proof {
                                assert(vs.deep_view() =~= run.1);
                            }
                        },
                    }
                    values.insert(j2, (k0, vs));
                    proof {
                        assert(values.deep_view() =~= gvals.update(
                            j2 as int,
                            (run.0, vs.deep_view()),
                        ));
                        assert(values.deep_view()[j2 as int] == fix_dtf_run(run, gd, gt, gta));
                    }
                } else {
                    proof {
                        assert(values.deep_view()[j2 as int] == fix_dtf_run(run, gd, gt, gta));
                    }
                }
                j2 = j2 + 1;
            }
            objects.insert(i, Object { name, values });
            proof {
                assert(fix_dtf_obj(go).runs.len() == go.runs.len());
                assert(values.deep_view() =~= fix_dtf_obj(go).runs);
                assert(objects.deep_view() =~= gobjs.update(i as int, fix_dtf_obj(go)));
            }
        } else {
            proof {
                assert(fix_dtf_obj(go) == go);
            }
        }
        i = i + 1;
    }
    proof {
        assert(objects.deep_view() =~= fix_dtf(orig));
    }
}

/// The appended `t_fmt_ampm` run never collides with the `d_t_fmt` repair.
proof fn lemma_fix_tfa_keeps_dtf_ok(objs: Seq<GObj>)
    requires
        dtf_runs_nonempty(objs),
    ensures
        dtf_runs_nonempty(fix_tfa(objs)),
{
    assert(lit_t_fmt_ampm().len() != lit_d_t_fmt().len());
    assert forall|i: int, j: int|
        0 <= i < fix_tfa(objs).len() && 0 <= j < fix_tfa(objs)[i].runs.len() && fix_tfa(
            objs,
        )[i].name == lit_lc_time() && (#[trigger] fix_tfa(objs)[i].runs[j]).0 == lit_d_t_fmt()
        implies fix_tfa(objs)[i].runs[j].1.len() > 0 by {
        assert(fix_tfa(objs)[i] == fix_tfa_obj(objs[i]));
        if j < objs[i].runs.len() {
            assert(fix_tfa_obj(objs[i]).runs[j] == objs[i].runs[j]);
            assert(objs[i].runs[j].0 == lit_d_t_fmt());
            assert(objs[i].runs[j].1.len() > 0);
        } else {
            assert(fix_tfa_obj(objs[i]).runs[j].0 == lit_t_fmt_ampm());
            assert(false);
        }
    }
}

/// Both repairs, in order: `t_fmt_ampm` first, then `d_t_fmt`.
pub fn validate_and_fix(objects: &mut Vec<Object>)
    requires
        dtf_runs_nonempty(old(objects).deep_view()),
    ensures
        final(objects).deep_view() == fix_dtf(fix_tfa(old(objects).deep_view())),
{
    proof {
        lemma_fix_tfa_keeps_dtf_ok(old(objects).deep_view());
    }
    validate_and_fix_t_fmt_ampm(objects);
    validate_and_fix_d_t_fmt(objects);
}

} // verus!
