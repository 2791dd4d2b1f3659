//! Mermaid gantt charts: model, parser and Mermaid output.

use vstd::prelude::*;
use crate::text::{
    chars_of, decimal, eq_slice, flat, join, keep_content, kept_numbered, lemma_flat_all,
    lemma_flat_step, lines, nonempty_trimmed, numbered, numbered_lines, push_chars,
    push_decimal_u64, seqs, slice_to_vec, split_char, split_char_slice, split_once,
    split_once_exec, split_trim_nonempty, starts_with, str_eq, string_of, strip_prefix,
    strip_prefix_exec, trim, trim_slice, views, join_strings, lemma_split_char_nonempty,
};
use crate::state::{assoc_insert, key_pos, keys_of, lookup, pos_in};
use crate::er::all_word;

verus! {

#[derive(Clone, Debug)]
pub struct GanttTask {
    pub name: String,
    pub id: Option<String>,
    /// Start as days since Unix epoch (UTC date).
    pub start: i64,
    /// End exclusive as days since Unix epoch.
    pub end: i64,
    pub section: String,
    pub crit: bool,
    pub done: bool,
    pub active: bool,
    /// Point-in-time marker (`milestone` tag).
    pub milestone: bool,
}

#[derive(Clone, Debug)]
pub struct GanttDiagram {
    pub title: String,
    pub date_format: String,
    pub tasks: Vec<GanttTask>,
}

#[derive(Clone, Debug)]
pub struct ParseError {
    pub message: String,
    pub line: Option<usize>,
}

// ---------------------------------------------------------------- values

/// name, id, start, end, section, crit, done, active, milestone
pub type TaskV = (Seq<char>, Option<Seq<char>>, int, int, Seq<char>, bool, bool, bool, bool);

#[verifier::ext_equal]
pub ghost struct GanttV {
    pub title: Seq<char>,
    pub date_format: Seq<char>,
    pub tasks: Seq<TaskV>,
}

pub open spec fn opt_v(o: Option<String>) -> Option<Seq<char>> {
    match o {
        Some(s) => Some(s@),
        None => None,
    }
}

pub open spec fn task_v(t: GanttTask) -> TaskV {
    (t.name@, opt_v(t.id), t.start as int, t.end as int, t.section@, t.crit, t.done, t.active, t.milestone)
}

pub open spec fn gantt_v(d: GanttDiagram) -> GanttV {
    GanttV {
        title: d.title@,
        date_format: d.date_format@,
        tasks: Seq::new(d.tasks@.len(), |i: int| task_v(d.tasks@[i])),
    }
}

pub open spec fn gerr(e: ParseError) -> (Seq<char>, Option<int>) {
    (e.message@, match e.line {
        Some(n) => Some(n as int),
        None => None,
    })
}

// ---------------------------------------------------------------- numbers

pub open spec fn is_digit(c: char) -> bool {
    '0' <= c && c <= '9'
}

pub open spec fn all_digits(s: Seq<char>) -> bool {
    forall|i: int| 0 <= i < s.len() ==> is_digit(#[trigger] s[i])
}

/// Value of a string of decimal digits.
pub open spec fn digits_value(s: Seq<char>) -> int
    decreases s.len(),
{
    if s.len() == 0 {
        0
    } else {
        digits_value(s.drop_last()) * 10 + ((s.last() as int) - ('0' as int))
    }
}

/// Whether a number is negative, and its digits after the sign.
pub open spec fn int_body(s: Seq<char>, lo: int) -> (bool, Seq<char>) {
    let neg = s.len() > 0 && s[0] == '-' && lo < 0;
    (neg, if s.len() > 0 && (s[0] == '+' || neg) {
        s.drop_first()
    } else {
        s
    })
}

/// What `str::parse` gives for an integer type with range `lo..=hi`:
/// an optional sign (`-` only for signed types) and at least one digit.
pub open spec fn parse_int(s: Seq<char>, lo: int, hi: int) -> Option<int> {
    let (neg, body) = int_body(s, lo);
    if body.len() == 0 || !all_digits(body) {
        None
    } else {
        let v = if neg {
            -digits_value(body)
        } else {
            digits_value(body)
        };
        if lo <= v && v <= hi {
            Some(v)
        } else {
            None
        }
    }
}

pub open spec fn i32_min() -> int {
    -0x8000_0000
}

pub open spec fn i32_max() -> int {
    0x7fff_ffff
}

pub open spec fn u32_max() -> int {
    0xffff_ffff
}

pub open spec fn i64_min() -> int {
    -0x8000_0000_0000_0000
}

pub open spec fn i64_max() -> int {
    0x7fff_ffff_ffff_ffff
}

/// Days since 1970-01-01 of a proleptic Gregorian date.
pub open spec fn days_from_civil(y0: int, m: int, d: int) -> int {
    let y = if m <= 2 {
        y0 - 1
    } else {
        y0
    };
    let era = y / 400;
    let yoe = y - era * 400;
    let mp = if m > 2 {
        m - 3
    } else {
        m + 9
    };
    let doy = (153 * mp + 2) / 5 + d - 1;
    let doe = yoe * 365 + yoe / 4 - yoe / 100 + doy;
    era * 146097 + doe - 719468
}

/// The date `(year, month, day)` of a day count.
pub open spec fn civil_from_days(z0: int) -> (int, int, int) {
    let z = z0 + 719468;
    let era = z / 146097;
    let doe = z - era * 146097;
    let yoe = (doe - doe / 1460 + doe / 36524 - doe / 146096) / 365;
    let y = yoe + era * 400;
    let doy = doe - (365 * yoe + yoe / 4 - yoe / 100);
    let mp = (5 * doy + 2) / 153;
    let d = doy - (153 * mp + 2) / 5 + 1;
    let m = if mp < 10 {
        mp + 3
    } else {
        mp - 9
    };
    (if m <= 2 {
        y + 1
    } else {
        y
    }, m, d)
}

/// `YYYY-MM-DD` as days since the epoch.
pub open spec fn ymd(s: Seq<char>) -> Option<int> {
    let ps = split_char(s, '-');
    if ps.len() != 3 {
        None
    } else {
        match (parse_int(ps[0], i32_min(), i32_max()), parse_int(ps[1], 0, u32_max()), parse_int(ps[2], 0, u32_max())) {
            (Some(y), Some(m), Some(d)) => if 1 <= m && m <= 12 && 1 <= d && d <= 31 {
                Some(days_from_civil(y, m, d))
            } else {
                None
            },
            _ => None,
        }
    }
}

/// Rust's `/` on integers (rounds toward zero).
pub open spec fn trunc_div(a: int, b: int) -> int {
    if a >= 0 {
        a / b
    } else {
        -((-a) / b)
    }
}

/// `Nd` or `Nh` (hours rounded up to days).
pub open spec fn duration_days(s0: Seq<char>) -> Option<int> {
    let s = trim(s0);
    if s.len() > 0 && s.last() == 'd' {
        parse_int(s.drop_last(), i64_min(), i64_max())
    } else if s.len() > 0 && s.last() == 'h' {
        match parse_int(s.drop_last(), i64_min(), i64_max()) {
            Some(h) => Some(trunc_div(h + 23, 24)),
            None => None,
        }
    } else {
        None
    }
}

/// Zero padding to width `w` (`{:0w}`), the sign counted in the width.
pub open spec fn zeros(n: int) -> Seq<char> {
    Seq::new(if n > 0 { n as nat } else { 0 }, |i: int| '0')
}

pub open spec fn padded(v: int, w: int) -> Seq<char> {
    if v < 0 {
        "-"@ + zeros(w - 1 - decimal((-v) as nat).len()) + decimal((-v) as nat)
    } else {
        zeros(w - decimal(v as nat).len()) + decimal(v as nat)
    }
}

/// `YYYY-MM-DD` text of a day count.
pub open spec fn ymd_text(z: int) -> Seq<char> {
    let (y, m, d) = civil_from_days(z);
    padded(y, 4) + "-"@ + padded(m, 2) + "-"@ + padded(d, 2)
}

// ---------------------------------------------------------------- grammar

/// What the tokens after `:` have said so far.
#[verifier::ext_equal]
pub ghost struct Toks {
    pub crit: bool,
    pub done: bool,
    pub active: bool,
    pub milestone: bool,
    pub id: Option<Seq<char>>,
    pub start: Option<int>,
    pub end: Option<int>,
    pub after: Option<Seq<char>>,
    pub dur: Option<int>,
}

pub open spec fn no_toks() -> Toks {
    Toks { crit: false, done: false, active: false, milestone: false, id: None, start: None, end: None, after: None, dur: None }
}

/// One token; `None` when it is not understood.
pub open spec fn tok(t: Toks, p: Seq<char>) -> Option<Toks> {
    if p == "crit"@ {
        Some(Toks { crit: true, ..t })
    } else if p == "done"@ {
        Some(Toks { done: true, ..t })
    } else if p == "active"@ {
        Some(Toks { active: true, ..t })
    } else if p == "milestone"@ {
        Some(Toks { milestone: true, dur: if t.dur is None { Some(0) } else { t.dur }, ..t })
    } else if "after "@.is_prefix_of(p) {
        Some(Toks { after: Some(trim(p.subrange(6, p.len() as int))), ..t })
    } else if let Some(d) = ymd(p) {
        if t.start is None {
            Some(Toks { start: Some(d), ..t })
        } else {
            Some(Toks { end: Some(d), ..t })
        }
    } else if let Some(n) = duration_days(p) {
        Some(Toks { dur: Some(n), ..t })
    } else if all_word(p) && t.id is None && t.start is None && t.after is None {
        Some(Toks { id: Some(p), ..t })
    } else {
        None
    }
}

/// Tokens from index `i`: what they say, or the first one not understood.
pub open spec fn toks(ps: Seq<Seq<char>>, i: int, t: Toks) -> Result<Toks, Seq<char>>
    decreases ps.len() - i,
{
    if i < 0 || i >= ps.len() {
        Ok(t)
    } else {
        match tok(t, ps[i]) {
            Some(t2) => toks(ps, i + 1, t2),
            None => Err(ps[i]),
        }
    }
}

/// Reader state.
#[verifier::ext_equal]
pub ghost struct GSt {
    pub title: Seq<char>,
    pub date_format: Seq<char>,
    pub section: Seq<char>,
    pub tasks: Seq<TaskV>,
    pub id_end: Seq<(Seq<char>, int)>,
    pub cursor: Option<int>,
}

pub open spec fn start_gst() -> GSt {
    GSt {
        title: Seq::empty(),
        date_format: "YYYY-MM-DD"@,
        section: "Default"@,
        tasks: Seq::empty(),
        id_end: Seq::empty(),
        cursor: None,
    }
}

/// Where a task starts: after another task, at its own date, or where the last one ended.
pub open spec fn task_start(st: GSt, t: Toks) -> Result<int, Seq<char>> {
    match t.after {
        Some(a) => match lookup(st.id_end, a) {
            Some(v) => Ok(v),
            None => Err("unknown task id '"@ + a + "' in after clause"@),
        },
        None => match t.start {
            Some(s) => Ok(s),
            None => match st.cursor {
                Some(c) => Ok(c),
                None => Err("task missing start date"@),
            },
        },
    }
}

/// Where a task ends.
pub open spec fn task_end(t: Toks, start: int) -> Result<int, Seq<char>> {
    match t.end {
        Some(e) => Ok(e),
        None => match t.dur {
            Some(d) => {
                let least = if t.milestone { 0 } else { 1 };
                Ok(start + if d > least { d } else { least })
            },
            None => if t.milestone {
                Ok(start)
            } else {
                Err("task missing end date or duration"@)
            },
        },
    }
}

/// A task line `Name : tokens`.
pub open spec fn task_line(st: GSt, n: int, text: Seq<char>) -> Result<GSt, (Seq<char>, Option<int>)> {
    match split_once(text, ":"@) {
        None => Err(("unrecognized gantt line: "@ + text, Some(n))),
        Some((nm, meta)) => {
            let name = trim(nm);
            let ps = nonempty_trimmed(split_char(meta, ','));
            match toks(ps, 0, no_toks()) {
                Err(p) => Err(("unrecognized task token '"@ + p + "'"@, Some(n))),
                Ok(t) => match task_start(st, t) {
                    Err(m) => Err((m, Some(n))),
                    Ok(start) => match task_end(t, start) {
                        Err(m) => Err((m, Some(n))),
                        Ok(end) => if end < i64_min() || end > i64_max() {
                            Err(("task end date out of range"@, Some(n)))
                        } else {
                            let anchor = if t.milestone { start } else { end };
                            Ok(GSt {
                                id_end: match t.id {
                                    Some(tid) => assoc_insert(st.id_end, tid, anchor),
                                    None => st.id_end,
                                },
                                cursor: Some(anchor),
                                tasks: st.tasks.push((name, t.id, start, anchor, st.section, t.crit, t.done, t.active, t.milestone)),
                                ..st
                            })
                        },
                    },
                },
            }
        },
    }
}

/// One content line after the header.
pub open spec fn gantt_step(st: GSt, n: int, text: Seq<char>) -> Result<GSt, (Seq<char>, Option<int>)> {
    if "title "@.is_prefix_of(text) {
        Ok(GSt { title: trim(text.subrange(6, text.len() as int)), ..st })
    } else if "dateFormat "@.is_prefix_of(text) {
        let df = trim(text.subrange(11, text.len() as int));
        if df != "YYYY-MM-DD"@ {
            Err(("unsupported dateFormat '"@ + df + "' (only YYYY-MM-DD)"@, Some(n)))
        } else {
            Ok(GSt { date_format: df, ..st })
        }
    } else if "section "@.is_prefix_of(text) {
        Ok(GSt { section: trim(text.subrange(8, text.len() as int)), ..st })
    } else {
        task_line(st, n, text)
    }
}

/// Lines `1..i` read in order.
pub open spec fn gantt_upto(ls: Seq<(int, Seq<char>)>, i: int) -> Result<GSt, (Seq<char>, Option<int>)>
    decreases i,
{
    if i <= 1 {
        Ok(start_gst())
    } else {
        match gantt_upto(ls, i - 1) {
            Ok(st) => gantt_step(st, ls[i - 1].0, ls[i - 1].1),
            Err(e) => Err(e),
        }
    }
}

/// What parsing a gantt source gives.
pub open spec fn gantt_parse(src: Seq<char>) -> Result<GanttV, (Seq<char>, Option<int>)> {
    let ls = kept_numbered(lines(src), |l: Seq<char>| keep_content(l));
    if ls.len() == 0 {
        Err(("expected gantt header"@, None))
    } else if ls[0].1 != "gantt"@ {
        Err(("expected gantt header"@, Some(ls[0].0)))
    } else {
        match gantt_upto(ls, ls.len() as int) {
            Ok(st) => Ok(GanttV { title: st.title, date_format: st.date_format, tasks: st.tasks }),
            Err(e) => Err(e),
        }
    }
}

// ---------------------------------------------------------------- writing

/// The tags of a task, in the order they are written.
pub open spec fn task_meta(t: TaskV) -> Seq<Seq<char>> {
    let a = if t.5 { seq!["crit"@] } else { Seq::empty() };
    let b = if t.7 { seq!["active"@] } else { Seq::empty() };
    let c = if t.6 { seq!["done"@] } else { Seq::empty() };
    let d = if t.8 { seq!["milestone"@] } else { Seq::empty() };
    let e = match t.1 {
        Some(id) => seq![id],
        None => Seq::empty(),
    };
    let dur = if t.8 {
        "0d"@
    } else {
        decimal((if t.3 - t.2 > 1 { t.3 - t.2 } else { 1 }) as nat) + "d"@
    };
    a + b + c + d + e + seq![ymd_text(t.2), dur]
}

pub open spec fn task_text(t: TaskV) -> Seq<char> {
    "    "@ + t.0 + " : "@ + join(task_meta(t), ", "@) + "\n"@
}

/// The section a task follows (the empty text before the first).
pub open spec fn prev_section(ts: Seq<TaskV>, i: int) -> Seq<char> {
    if i == 0 {
        Seq::empty()
    } else {
        ts[i - 1].4
    }
}

pub open spec fn task_block(ts: Seq<TaskV>, i: int) -> Seq<char> {
    (if ts[i].4 != prev_section(ts, i) {
        "    section "@ + ts[i].4 + "\n"@
    } else {
        Seq::empty()
    }) + task_text(ts[i])
}

/// Mermaid text of a gantt chart.
pub open spec fn gantt_mermaid(d: GanttV) -> Seq<char> {
    "gantt\n"@ + (if d.title.len() > 0 {
        "    title "@ + d.title + "\n"@
    } else {
        Seq::empty()
    }) + "    dateFormat "@ + d.date_format + "\n"@ + flat(
        Seq::new(d.tasks.len(), |i: int| i),
        |i: int| task_block(d.tasks, i),
    )
}

/// The first content line is exactly `kw`.
pub open spec fn first_content_is(src: Seq<char>, kw: Seq<char>) -> bool {
    let ls = kept_numbered(lines(src), |l: Seq<char>| keep_content(l));
    ls.len() > 0 && ls[0].1 == kw
}

/// Every task's dates have years that fit in 32 bits.
pub open spec fn dates_in_range(d: GanttDiagram) -> bool {
    forall|i: int| 0 <= i < d.tasks@.len() ==> date_in_range(#[trigger] d.tasks@[i].start as int)
        && date_in_range(d.tasks@[i].end as int)
}

/// Day counts whose dates have years that fit in 32 bits.
pub open spec fn date_in_range(z: int) -> bool {
    i32_min() <= civil_from_days(z).0 <= i32_max()
}

/// A day count whose year fits in 32 bits lies within 800 000 000 000 days
/// of the epoch.
pub proof fn lemma_date_in_range_bounded(z0: int)
    requires
        date_in_range(z0),
    ensures
        -800_000_000_000 <= z0 <= 800_000_000_000,
{
    let z = z0 + 719468;
    let era = z / 146097;
    let doe = z - era * 146097;
    vstd::arithmetic::div_mod::lemma_fundamental_div_mod(z, 146097);
    assert(0 <= doe < 146097);
    let yoe = (doe - doe / 1460 + doe / 36524 - doe / 146096) / 365;
    assert(0 <= yoe <= 401);
    let y = civil_from_days(z0).0;
    assert(era * 400 <= y <= era * 400 + 402);
    if era > 5368709 {
        assert(era * 400 >= 5368710 * 400) by (nonlinear_arith)
            requires
                era > 5368709;
    }
    if era < -5368710 {
        assert(era * 400 <= -5368711 * 400) by (nonlinear_arith)
            requires
                era < -5368710;
    }
    assert(-5368710 <= era <= 5368709);
    assert(-5368710 * 146097 <= era * 146097 <= 5368709 * 146097) by (nonlinear_arith)
        requires
            -5368710 <= era <= 5368709;
}

/// Whether a day count's year fits in 32 bits, so that it can be printed.
pub fn date_printable(days: i64) -> (b: bool)
    ensures
        b == date_in_range(days as int),
{
    if days < -800_000_000_000 || days > 800_000_000_000 {
        proof {
            if date_in_range(days as int) {
                lemma_date_in_range_bounded(days as int);
            }
        }
        return false;
    }
    let (y, _m, _d) = civil_from_days_exec(days);
    -0x8000_0000 <= y && y <= 0x7fff_ffff
}


// ---------------------------------------------------------------- number code

proof fn lemma_dv_nonneg(t: Seq<char>)
    requires
        all_digits(t),
    ensures
        digits_value(t) >= 0,
    decreases t.len(),
{
    if t.len() > 0 {
        assert(t.drop_last().len() < t.len());
        assert(all_digits(t.drop_last())) by {
            assert forall|i: int| 0 <= i < t.drop_last().len() implies is_digit(#[trigger] t.drop_last()[i]) by {
                assert(t.drop_last()[i] == t[i]);
            }
        }
        lemma_dv_nonneg(t.drop_last());
        assert(is_digit(t[t.len() - 1]));
    }
}

proof fn lemma_dv_mono(s: Seq<char>, i: int, j: int)
    requires
        all_digits(s),
        0 <= i <= j <= s.len(),
    ensures
        0 <= digits_value(s.take(i)) <= digits_value(s.take(j)),
    decreases j,
{
    assert(all_digits(s.take(i))) by {
        assert forall|k: int| 0 <= k < s.take(i).len() implies is_digit(#[trigger] s.take(i)[k]) by {
            assert(s.take(i)[k] == s[k]);
        }
    }
    lemma_dv_nonneg(s.take(i));
    if j > i {
        lemma_dv_mono(s, i, j - 1);
        assert(s.take(j).drop_last() =~= s.take(j - 1));
        assert(s.take(j).last() == s[j - 1]);
        assert(is_digit(s[j - 1]));
    }
}

/// `str::parse` for an integer type with range `lo..=hi`.
pub(crate) fn parse_int_exec(s: &[char], lo: i64, hi: i64) -> (r: Option<i64>)
    requires
        lo <= 0 <= hi,
    ensures
        r matches Some(v) ==> parse_int(s@, lo as int, hi as int) == Some(v as int),
        r is None ==> parse_int(s@, lo as int, hi as int) is None,
{
    let n = s.len();
    let neg = n > 0 && s[0] == '-' && lo < 0;
    let start: usize = if n > 0 && (s[0] == '+' || neg) { 1 } else { 0 };
    let body = &s[start..n];
    assert(int_body(s@, lo as int) == (neg, body@));
    if body.len() == 0 {
        return None;
    }
    let mut acc: i128 = 0;
    let mut i: usize = 0;
    assert(body@.take(0) =~= Seq::<char>::empty());
    while i < body.len()
        invariant
            i <= body@.len(),
            int_body(s@, lo as int) == (neg, body@),
            lo <= 0 <= hi,
            body@.len() > 0,
            0 <= acc <= 0x8000_0000_0000_0000,
            acc == digits_value(body@.take(i as int)),
            forall|k: int| 0 <= k < i ==> is_digit(#[trigger] body@[k]),
        decreases body@.len() - i,
    {
        let c = body[i];
        if !('0' <= c && c <= '9') {
            assert(!is_digit(body@[i as int]));
            return None;
        }
        assert(body@.take(i + 1).drop_last() =~= body@.take(i as int));
        assert(body@.take(i + 1).last() == c);
        let dg = (c as u32) - 48;
        acc = acc * 10 + dg as i128;
        i = i + 1;
        if acc > 0x8000_0000_0000_0000 {
            proof {
                if all_digits(body@) {
                    lemma_dv_mono(body@, i as int, body@.len() as int);
                    assert(body@.take(body@.len() as int) =~= body@);
                }
            }
            return None;
        }
    }
    assert(body@.take(body@.len() as int) =~= body@);
    let v: i128 = if neg { -acc } else { acc };
    if (lo as i128) <= v && v <= (hi as i128) {
        Some(v as i64)
    } else {
        None
    }
}

/// Euclidean division by a positive divisor.
fn ediv(a: i64, b: i64) -> (r: i64)
    requires
        b > 0,
    ensures
        r == a / b,
{
    if a >= 0 {
        ((a as u64) / (b as u64)) as i64
    } else {
        let p: u64 = (-(a as i128) - 1) as u64;
        let q: u64 = p / (b as u64);
        proof {
            vstd::arithmetic::div_mod::lemma_fundamental_div_mod(p as int, b as int);
            let rr = (p as int) % (b as int);
            assert(a == (-(q as int) - 1) * (b as int) + ((b as int) - rr - 1)) by (nonlinear_arith)
                requires
                    p as int == (b as int) * (q as int) + rr,
                    p as int == -(a as int) - 1,
                    q as int == (p as int) / (b as int);
            vstd::arithmetic::div_mod::lemma_fundamental_div_mod_converse(a as int, b as int, -(q as int) - 1, (b as int) - rr - 1);
        }
        -(q as i64) - 1
    }
}

fn days_from_civil_exec(y0: i64, m: i64, d: i64) -> (r: i64)
    requires
        i32_min() <= y0 <= i32_max(),
        1 <= m <= 12,
        1 <= d <= 31,
    ensures
        r == days_from_civil(y0 as int, m as int, d as int),
{
    let y = if m <= 2 { y0 - 1 } else { y0 };
    let era = ediv(y, 400);
    let yoe = y - era * 400;
    assert(0 <= yoe < 400);
    let mp = if m > 2 { m - 3 } else { m + 9 };
    let doy = ediv(153 * mp + 2, 5) + d - 1;
    let doe = yoe * 365 + ediv(yoe, 4) - ediv(yoe, 100) + doy;
    era * 146097 + doe - 719468
}

/// The date of a day count.
fn civil_from_days_exec(z0: i64) -> (r: (i64, i64, i64))
    requires
        -800_000_000_000 <= z0 <= 800_000_000_000,
    ensures
        (r.0 as int, r.1 as int, r.2 as int) == civil_from_days(z0 as int),
{
    let z = z0 + 719468;
    let era = ediv(z, 146097);
    let doe = z - era * 146097;
    assert(0 <= doe < 146097);
    let yoe = ediv(doe - ediv(doe, 1460) + ediv(doe, 36524) - ediv(doe, 146096), 365);
    assert(0 <= yoe <= 401);
    let y = yoe + era * 400;
    let doy = doe - (365 * yoe + ediv(yoe, 4) - ediv(yoe, 100));
    let mp = ediv(5 * doy + 2, 153);
    let d = doy - ediv(153 * mp + 2, 5) + 1;
    let m = if mp < 10 { mp + 3 } else { mp - 9 };
    (if m <= 2 { y + 1 } else { y }, m, d)
}

/// Days since 1970-01-01 for a `YYYY-MM-DD` date.
pub fn parse_ymd(s: &str) -> (r: Option<i64>)
    ensures
        r matches Some(v) ==> ymd(s@) == Some(v as int),
        r is None ==> ymd(s@) is None,
{
    let cs = chars_of(s);
    ymd_exec(cs.as_slice())
}

fn ymd_exec(s: &[char]) -> (r: Option<i64>)
    ensures
        r matches Some(v) ==> ymd(s@) == Some(v as int),
        r is None ==> ymd(s@) is None,
{
    let ps = split_char_slice(s, '-');
    let ghost sv = seqs(ps@);
    if ps.len() != 3 {
        return None;
    }
    assert(sv[0] == ps@[0]@ && sv[1] == ps@[1]@ && sv[2] == ps@[2]@);
    let y = parse_int_exec(ps[0].as_slice(), -0x8000_0000, 0x7fff_ffff);
    let m = parse_int_exec(ps[1].as_slice(), 0, 0xffff_ffff);
    let d = parse_int_exec(ps[2].as_slice(), 0, 0xffff_ffff);
    match (y, m, d) {
        (Some(y), Some(m), Some(d)) => {
            if 1 <= m && m <= 12 && 1 <= d && d <= 31 {
                Some(days_from_civil_exec(y, m, d))
            } else {
                None
            }
        },
        _ => None,
    }
}

/// `Nd` or `Nh` as whole days.
fn duration_exec(s0: &[char]) -> (r: Option<i64>)
    ensures
        r matches Some(v) ==> duration_days(s0@) == Some(v as int),
        r is None ==> duration_days(s0@) is None,
{
    let s = trim_slice(s0);
    let n = s.len();
    if n > 0 && s[n - 1] == 'd' {
        assert(s@.subrange(0, n - 1) =~= s@.drop_last());
        return parse_int_exec(&s[0..n - 1], -0x8000_0000_0000_0000, 0x7fff_ffff_ffff_ffff);
    }
    if n > 0 && s[n - 1] == 'h' {
        assert(s@.subrange(0, n - 1) =~= s@.drop_last());
        match parse_int_exec(&s[0..n - 1], -0x8000_0000_0000_0000, 0x7fff_ffff_ffff_ffff) {
            Some(h) => {
                let t: i128 = h as i128 + 23;
                let q: i128 = if t >= 0 { t / 24 } else { -((-t) / 24) };
                return Some(q as i64);
            },
            None => return None,
        }
    }
    None
}

/// Append `v` zero-padded to width `w`.
fn push_padded(out: &mut String, v: i64, w: usize)
    requires
        -0x7fff_ffff_ffff_ffff <= v,
    ensures
        final(out)@ == old(out)@ + padded(v as int, w as int),
{
    let ghost o0 = out@;
    let mut digits = String::new();
    let mag: u64 = if v < 0 { (-(v as i128)) as u64 } else { v as u64 };
    push_decimal_u64(&mut digits, mag);
    let dl = chars_of(digits.as_str()).len();
    assert(digits@ == decimal(mag as nat));
    proof {
        reveal_strlit("-");
    }
    if v < 0 {
        crate::text::push_char(out, '-');
    }
    let need: usize = if v < 0 {
        if w > dl && w - dl > 1 { w - dl - 1 } else { 0 }
    } else {
        if w > dl { w - dl } else { 0 }
    };
    let ghost base = out@;
    let mut k: usize = 0;
    while k < need
        invariant
            k <= need,
            out@ == base + Seq::new(k as nat, |i: int| '0'),
        decreases need - k,
    {
        crate::text::push_char(out, '0');
        k = k + 1;
        assert(out@ =~= base + Seq::new(k as nat, |i: int| '0'));
    }
    out.append(digits.as_str());
    assert(zeros(if v < 0 { w - 1 - dl } else { w - dl }) =~= Seq::new(need as nat, |i: int| '0'));
    if v < 0 {
        assert(out@ =~= o0 + ("-"@ + zeros(w - 1 - dl) + decimal(mag as nat)));
    } else {
        assert(out@ =~= o0 + (zeros(w - dl) + decimal(mag as nat)));
    }
}

/// `YYYY-MM-DD` text of a day count.
pub fn format_ymd(days: i64) -> (r: String)
    requires
        date_in_range(days as int),
    ensures
        r@ == ymd_text(days as int),
{
    proof {
        lemma_date_in_range_bounded(days as int);
    }
    let (y, m, d) = civil_from_days_exec(days);
    let mut out = String::new();
    push_padded(&mut out, y, 4);
    out.append("-");
    push_padded(&mut out, m, 2);
    out.append("-");
    push_padded(&mut out, d, 2);
    out
}


// ---------------------------------------------------------------- reading

/// What the tokens of a task line have said so far.
struct TokX {
    crit: bool,
    done: bool,
    active: bool,
    milestone: bool,
    id: Option<Vec<char>>,
    start: Option<i64>,
    end: Option<i64>,
    after: Option<Vec<char>>,
    dur: Option<i64>,
}

spec fn ov(o: Option<Vec<char>>) -> Option<Seq<char>> {
    match o {
        Some(v) => Some(v@),
        None => None,
    }
}

spec fn oi(o: Option<i64>) -> Option<int> {
    match o {
        Some(v) => Some(v as int),
        None => None,
    }
}

spec fn tok_v(t: TokX) -> Toks {
    Toks {
        crit: t.crit,
        done: t.done,
        active: t.active,
        milestone: t.milestone,
        id: ov(t.id),
        start: oi(t.start),
        end: oi(t.end),
        after: ov(t.after),
        dur: oi(t.dur),
    }
}

/// One token; `false` when it is not understood.
fn tok_exec(t: &mut TokX, p: &[char]) -> (ok: bool)
    ensures
        match tok(tok_v(*old(t)), p@) {
            Some(t2) => ok && tok_v(*final(t)) == t2,
            None => !ok,
        },
{
    if eq_slice(p, chars_of("crit").as_slice()) {
        t.crit = true;
        return true;
    }
    if eq_slice(p, chars_of("done").as_slice()) {
        t.done = true;
        return true;
    }
    if eq_slice(p, chars_of("active").as_slice()) {
        t.active = true;
        return true;
    }
    if eq_slice(p, chars_of("milestone").as_slice()) {
        t.milestone = true;
        if t.dur.is_none() {
            t.dur = Some(0);
        }
        return true;
    }
    if let Some(rest) = strip_prefix_exec(p, "after ") {
        proof {
            reveal_strlit("after ");
        }
        assert(rest@ == p@.subrange(6, p@.len() as int));
        t.after = Some(slice_to_vec(trim_slice(rest.as_slice())));
        return true;
    }
    if let Some(d) = ymd_exec(p) {
        if t.start.is_none() {
            t.start = Some(d);
        } else {
            t.end = Some(d);
        }
        return true;
    }
    if let Some(n) = duration_exec(p) {
        t.dur = Some(n);
        return true;
    }
    if crate::er::all_word_exec(p) && t.id.is_none() && t.start.is_none() && t.after.is_none() {
        t.id = Some(slice_to_vec(p));
        return true;
    }
    false
}

struct GX {
    title: Vec<char>,
    date_format: Vec<char>,
    section: Vec<char>,
    tasks: Vec<GanttTask>,
    id_keys: Vec<Vec<char>>,
    id_vals: Vec<i64>,
    cursor: Option<i64>,
}

spec fn gx_wf(x: GX) -> bool {
    x.id_keys@.len() == x.id_vals@.len()
}

spec fn gx_v(x: GX) -> GSt {
    GSt {
        title: x.title@,
        date_format: x.date_format@,
        section: x.section@,
        tasks: Seq::new(x.tasks@.len(), |i: int| task_v(x.tasks@[i])),
        id_end: Seq::new(x.id_keys@.len(), |i: int| (x.id_keys@[i]@, x.id_vals@[i] as int)),
        cursor: oi(x.cursor),
    }
}

fn perr(msg: &str, line: Option<usize>) -> (e: ParseError)
    ensures
        e.message@ == msg@,
        e.line == line,
{
    ParseError { message: String::from_str(msg), line }
}

fn opt_string(o: &Option<Vec<char>>) -> (r: Option<String>)
    ensures
        opt_v(r) == ov(*o),
{
    match o {
        Some(v) => Some(string_of(v.as_slice())),
        None => None,
    }
}

fn task_line_exec(x: &mut GX, n: usize, text: &[char]) -> (r: Result<(), ParseError>)
    requires
        gx_wf(*old(x)),
    ensures
        gx_wf(*final(x)),
        match task_line(gx_v(*old(x)), n as int, text@) {
            Ok(st) => r is Ok && gx_v(*final(x)) == st,
            Err(e) => r matches Err(y) && gerr(y) == e,
        },
{
    let ghost st = gx_v(*x);
    let (nm, meta) = match split_once_exec(text, ":") {
        Some(p) => p,
        None => {
            let mut msg = String::from_str("unrecognized gantt line: ");
            push_chars(&mut msg, text);
            return Err(ParseError { message: msg, line: Some(n) });
        },
    };
    let name = trim_slice(nm.as_slice());
    let ps = split_trim_nonempty(meta.as_slice(), ',');
    let ghost psv = views(ps@);
    let mut t = TokX {
        crit: false,
        done: false,
        active: false,
        milestone: false,
        id: None,
        start: None,
        end: None,
        after: None,
        dur: None,
    };
    assert(tok_v(t) == no_toks());
    let mut i: usize = 0;
    while i < ps.len()
        invariant
            i <= ps@.len(),
            psv == views(ps@),
            psv == nonempty_trimmed(split_char(meta@, ',')),
            split_once(text@, ":"@) == Some((nm@, meta@)),
            name@ == trim(nm@),
            gx_wf(*x),
            st == gx_v(*x),
            toks(psv, 0, no_toks()) == toks(psv, i as int, tok_v(t)),
        decreases ps@.len() - i,
    {
        let pc = chars_of(ps[i].as_str());
        assert(psv[i as int] == ps@[i as int]@);
        if !tok_exec(&mut t, pc.as_slice()) {
            let mut msg = String::from_str("unrecognized task token '");
            msg.append(ps[i].as_str());
            msg.append("'");
            return Err(ParseError { message: msg, line: Some(n) });
        }
        i = i + 1;
    }
    let ghost tv = tok_v(t);
    assert(toks(psv, i as int, tok_v(t)) == Ok::<Toks, Seq<char>>(tv));
    assert(keys_of(st.id_end) =~= seqs(x.id_keys@));
    let start: i64 = match &t.after {
        Some(a) => match pos_in(&x.id_keys, a.as_slice()) {
            Some(j) => x.id_vals[j],
            None => {
                let mut msg = String::from_str("unknown task id '");
                push_chars(&mut msg, a.as_slice());
                msg.append("' in after clause");
                return Err(ParseError { message: msg, line: Some(n) });
            },
        },
        None => match t.start {
            Some(s) => s,
            None => match x.cursor {
                Some(c) => c,
                None => return Err(perr("task missing start date", Some(n))),
            },
        },
    };
    assert(task_start(st, tv) == Ok::<int, Seq<char>>(start as int));
    let end: i128 = match t.end {
        Some(e) => e as i128,
        None => match t.dur {
            Some(d) => {
                let least: i64 = if t.milestone { 0 } else { 1 };
                start as i128 + (if d > least { d } else { least }) as i128
            },
            None => {
                if t.milestone {
                    start as i128
                } else {
                    return Err(perr("task missing end date or duration", Some(n)));
                }
            },
        },
    };
    assert(task_end(tv, start as int) == Ok::<int, Seq<char>>(end as int));
    if end < -0x8000_0000_0000_0000 || end > 0x7fff_ffff_ffff_ffff {
        return Err(perr("task end date out of range", Some(n)));
    }
    let end = end as i64;
    let anchor = if t.milestone { start } else { end };
    let task = GanttTask {
        name: string_of(name),
        id: opt_string(&t.id),
        start,
        end: anchor,
        section: string_of(x.section.as_slice()),
        crit: t.crit,
        done: t.done,
        active: t.active,
        milestone: t.milestone,
    };
    let ghost tasks0 = gx_v(*x).tasks;
    x.tasks.push(task);
    assert(gx_v(*x).tasks =~= tasks0.push(task_v(task)));
    x.cursor = Some(anchor);
    match &t.id {
        Some(tid) => {
            let ghost m = gx_v(*x).id_end;
            match pos_in(&x.id_keys, tid.as_slice()) {
                Some(j) => {
                    x.id_vals.set(j, anchor);
                    x.id_keys.set(j, slice_to_vec(tid.as_slice()));
                    assert(gx_v(*x).id_end =~= m.update(j as int, (tid@, anchor as int)));
                },
                None => {
                    x.id_keys.push(slice_to_vec(tid.as_slice()));
                    x.id_vals.push(anchor);
                    assert(gx_v(*x).id_end =~= m.push((tid@, anchor as int)));
                },
            }
        },
        None => {},
    }
    Ok(())
}

fn gantt_step_exec(x: &mut GX, n: usize, text: &[char]) -> (r: Result<(), ParseError>)
    requires
        gx_wf(*old(x)),
    ensures
        gx_wf(*final(x)),
        match gantt_step(gx_v(*old(x)), n as int, text@) {
            Ok(st) => r is Ok && gx_v(*final(x)) == st,
            Err(e) => r matches Err(y) && gerr(y) == e,
        },
{
    proof {
        reveal_strlit("title ");
        reveal_strlit("dateFormat ");
        reveal_strlit("section ");
    }
    if let Some(rest) = strip_prefix_exec(text, "title ") {
        assert(rest@ == text@.subrange(6, text@.len() as int));
        x.title = slice_to_vec(trim_slice(rest.as_slice()));
        return Ok(());
    }
    if let Some(rest) = strip_prefix_exec(text, "dateFormat ") {
        assert(rest@ == text@.subrange(11, text@.len() as int));
        let df = trim_slice(rest.as_slice());
        if !eq_slice(df, chars_of("YYYY-MM-DD").as_slice()) {
            let mut msg = String::from_str("unsupported dateFormat '");
            push_chars(&mut msg, df);
            msg.append("' (only YYYY-MM-DD)");
            return Err(ParseError { message: msg, line: Some(n) });
        }
        x.date_format = slice_to_vec(df);
        return Ok(());
    }
    if let Some(rest) = strip_prefix_exec(text, "section ") {
        assert(rest@ == text@.subrange(8, text@.len() as int));
        x.section = slice_to_vec(trim_slice(rest.as_slice()));
        return Ok(());
    }
    task_line_exec(x, n, text)
}

/// Whether the first content line is `gantt`.
pub fn is_gantt(source: &str) -> (b: bool)
    ensures
        b == first_content_is(source@, "gantt"@),
{
    let ls = numbered_lines(source);
    let ghost nl = numbered(ls@);
    if ls.len() == 0 {
        return false;
    }
    assert(nl[0] == (ls@[0].0 as int, ls@[0].1@));
    eq_slice(ls[0].1.as_slice(), chars_of("gantt").as_slice())
}

/// Read a Mermaid gantt chart.
pub fn parse(source: &str) -> (r: Result<GanttDiagram, ParseError>)
    ensures
        match gantt_parse(source@) {
            Ok(v) => r matches Ok(d) && gantt_v(d) == v,
            Err(e) => r matches Err(x) && gerr(x) == e,
        },
{
    let ls = numbered_lines(source);
    let ghost nl = numbered(ls@);
    if ls.len() == 0 {
        return Err(perr("expected gantt header", None));
    }
    assert(nl[0] == (ls@[0].0 as int, ls@[0].1@));
    if !eq_slice(ls[0].1.as_slice(), chars_of("gantt").as_slice()) {
        return Err(perr("expected gantt header", Some(ls[0].0)));
    }
    let mut x = GX {
        title: Vec::new(),
        date_format: chars_of("YYYY-MM-DD"),
        section: chars_of("Default"),
        tasks: Vec::new(),
        id_keys: Vec::new(),
        id_vals: Vec::new(),
        cursor: None,
    };
    assert(gx_v(x) =~= start_gst());
    let mut i: usize = 1;
    while i < ls.len()
        invariant
            1 <= i <= ls@.len(),
            gx_wf(x),
            nl == numbered(ls@),
            nl == kept_numbered(lines(source@), |l: Seq<char>| keep_content(l)),
            nl.len() > 0 && nl[0].1 == "gantt"@,
            gantt_upto(nl, i as int) == Ok::<GSt, (Seq<char>, Option<int>)>(gx_v(x)),
        decreases ls@.len() - i,
    {
        assert(nl[i as int] == (ls@[i as int].0 as int, ls@[i as int].1@));
        match gantt_step_exec(&mut x, ls[i].0, ls[i].1.as_slice()) {
            Ok(()) => {},
            Err(e) => {
                proof {
                    lemma_gantt_upto_err(nl, i + 1, nl.len() as int);
                }
                return Err(e);
            },
        }
        i = i + 1;
    }
    let d = GanttDiagram {
        title: string_of(x.title.as_slice()),
        date_format: string_of(x.date_format.as_slice()),
        tasks: x.tasks,
    };
    assert(gantt_v(d).tasks =~= gx_v(x).tasks);
    Ok(d)
}


proof fn lemma_gantt_upto_err(ls: Seq<(int, Seq<char>)>, i: int, j: int)
    requires
        1 <= i <= j,
        gantt_upto(ls, i) is Err,
    ensures
        gantt_upto(ls, j) == gantt_upto(ls, i),
    decreases j - i,
{
    if j > i {
        lemma_gantt_upto_err(ls, i, j - 1);
    }
}


// ---------------------------------------------------------------- writing code

fn task_text_exec(t: &GanttTask) -> (r: String)
    requires
        date_in_range(t.start as int),
        date_in_range(t.end as int),
    ensures
        r@ == task_text(task_v(*t)),
{
    let ghost tv = task_v(*t);
    let mut meta: Vec<String> = Vec::new();
    let ghost a = if tv.5 { seq!["crit"@] } else { Seq::<Seq<char>>::empty() };
    let ghost b = if tv.7 { seq!["active"@] } else { Seq::<Seq<char>>::empty() };
    let ghost c = if tv.6 { seq!["done"@] } else { Seq::<Seq<char>>::empty() };
    let ghost d = if tv.8 { seq!["milestone"@] } else { Seq::<Seq<char>>::empty() };
    let ghost e = match tv.1 {
        Some(id) => seq![id],
        None => Seq::<Seq<char>>::empty(),
    };
    if t.crit {
        meta.push(String::from_str("crit"));
    }
    assert(views(meta@) =~= a);
    if t.active {
        meta.push(String::from_str("active"));
    }
    assert(views(meta@) =~= a + b);
    if t.done {
        meta.push(String::from_str("done"));
    }
    assert(views(meta@) =~= a + b + c);
    if t.milestone {
        meta.push(String::from_str("milestone"));
    }
    assert(views(meta@) =~= a + b + c + d);
    match &t.id {
        Some(id) => meta.push(String::from_str(id.as_str())),
        None => {},
    }
    assert(views(meta@) =~= a + b + c + d + e);
    meta.push(format_ymd(t.start));
    let dur = if t.milestone {
        String::from_str("0d")
    } else {
        let span: i64 = t.end - t.start;
        let span: i64 = if span > 1 { span } else { 1 };
        let mut s = String::new();
        push_decimal_u64(&mut s, span as u64);
        s.append("d");
        s
    };
    meta.push(dur);
    assert(views(meta@) =~= task_meta(tv));
    let mut out = String::from_str("    ");
    out.append(t.name.as_str());
    out.append(" : ");
    out.append(join_strings(&meta, ", ").as_str());
    out.append("\n");
    out
}

impl GanttDiagram {
    /// Mermaid text of the chart; dates must have years that fit in 32 bits.
    pub fn to_mermaid(&self) -> (r: String)
        requires
            dates_in_range(*self),
        ensures
            r@ == gantt_mermaid(gantt_v(*self)),
    {
        let ghost dv = gantt_v(*self);
        let mut out = String::from_str("gantt\n");
        if !str_eq(self.title.as_str(), "") {
            out.append("    title ");
            out.append(self.title.as_str());
            out.append("\n");
        }
        proof {
            reveal_strlit("");
            if self.title@.len() == 0 {
                assert(self.title@ =~= ""@);
            }
        }
        out.append("    dateFormat ");
        out.append(self.date_format.as_str());
        out.append("\n");
        let ghost base = out@;
        let ghost idx = Seq::new(dv.tasks.len(), |i: int| i);
        let ghost f = |i: int| task_block(dv.tasks, i);
        let mut cur = String::new();
        let mut i: usize = 0;
        while i < self.tasks.len()
            invariant
                i <= self.tasks@.len(),
                dv == gantt_v(*self),
                idx == Seq::new(dv.tasks.len(), |i: int| i),
                f == (|i: int| task_block(dv.tasks, i)),
                cur@ == prev_section(dv.tasks, i as int),
                out@ == base + flat(idx.take(i as int), f),
                forall|k: int| 0 <= k < self.tasks@.len() ==> date_in_range(#[trigger] self.tasks@[k].start as int)
                    && date_in_range(self.tasks@[k].end as int),
            decreases self.tasks@.len() - i,
        {
            proof {
                lemma_flat_step(idx, f, i as int);
            }
            let t = &self.tasks[i];
            assert(dv.tasks[i as int] == task_v(*t));
            let ghost before = out@;
            if !str_eq(t.section.as_str(), cur.as_str()) {
                out.append("    section ");
                out.append(t.section.as_str());
                out.append("\n");
                cur = String::from_str(t.section.as_str());
            }
            assert(cur@ == t.section@);
            out.append(task_text_exec(t).as_str());
            assert(out@ =~= before + task_block(dv.tasks, i as int));
            i = i + 1;
        }
        proof {
            assert(idx.take(dv.tasks.len() as int) =~= idx);
        }
        out
    }
}

} // verus!
