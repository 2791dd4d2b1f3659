//! Read-after-write law for state diagrams: the Mermaid text that the writer
//! prints reads back as the same transitions and the same set of states.

use vstd::prelude::*;
use crate::class::escape_note;
use crate::class_readback::lemma_no_kw;
use crate::er_readback::{
    lemma_not_comment, lemma_spaces, lemma_trim_lead, lemma_trim_space_end,
};
use crate::readback::{
    lemma_find_absent, lemma_find_first, lemma_flat_map, lemma_nl_append, lemma_nl_one, nl_text, one_line,
};
use crate::seq_readback::{
    lemma_lines_nl, lemma_numbered_all,
};
use crate::state::{
    assoc_default, assoc_insert, dedup, flat_ends, key_pos, keys_of, kind_keyword, lemma_key_pos_from, lookup,
    mark_start_end, rfind_before, st_run, st_step, state_as, state_ids, state_line, state_mermaid, state_node,
    state_parse, state_stereotype, transition_line, transition_text, StSt, StateDiagramV, StateNodeKind, StateV,
    TransV,
};
use crate::text::{
    find_char, flat, is_ws, keep_content, kept_numbered, lemma_find_char_from, lines, lowercase, occurs_at, trim,
    trim_start,
};

verus! {

/// A state id the reader takes as it stands.
pub open spec fn st_id(id: Seq<char>) -> bool {
    &&& id.len() > 0
    &&& id[0] != '%'
    &&& id != "state"@
    &&& forall|j: int| 0 <= j < id.len() ==> !is_ws(#[trigger] id[j]) && id[j] != '"' && id[j] != '{' && id[j] != ':'
        && id[j] != '<' && id[j] != '>'
}

/// A state label the writer prints unescaped and the reader takes back.
pub open spec fn label_ok(l: Seq<char>) -> bool {
    forall|j: int| 0 <= j < l.len() ==> #[trigger] l[j] != '"' && l[j] != '\\' && l[j] != '{' && l[j] != '\n'
}

pub open spec fn fancy(k: StateNodeKind) -> bool {
    k == StateNodeKind::Choice || k == StateNodeKind::Fork || k == StateNodeKind::Join
}

pub open spec fn kind_word(k: StateNodeKind) -> Seq<char> {
    match k {
        StateNodeKind::Choice => "choice"@,
        StateNodeKind::Fork => "fork"@,
        _ => "join"@,
    }
}

/// A state the writer prints a line for.
pub open spec fn declared(s: StateV) -> bool {
    s.0 != "[*]"@ && ((s.2 == StateNodeKind::Normal && s.1 != s.0) || fancy(s.2))
}

pub open spec fn state_ok(s: StateV) -> bool {
    &&& st_id(s.0)
    &&& (s.0 == "[*]"@ <==> s.2 == StateNodeKind::StartEnd)
    &&& s.0 == "[*]"@ ==> s.1 == "[*]"@
    &&& fancy(s.2) ==> s.1 == s.0
    &&& s.2 == StateNodeKind::Normal ==> label_ok(s.1)
}

pub open spec fn trans_ok(t: TransV) -> bool {
    &&& st_id(t.0)
    &&& st_id(t.1)
    &&& t.2.len() == 0 || (!is_ws(t.2[0]) && !is_ws(t.2.last()))
    &&& forall|j: int| 0 <= j < t.2.len() ==> #[trigger] t.2[j] != '\n'
}

pub open spec fn is_state(d: StateDiagramV, id: Seq<char>) -> bool {
    exists|a: int| 0 <= a < d.states.len() && (#[trigger] d.states[a]).0 == id
}

pub open spec fn in_transition(d: StateDiagramV, id: Seq<char>) -> bool {
    exists|k: int| 0 <= k < d.transitions.len() && ((#[trigger] d.transitions[k]).0 == id || d.transitions[k].1 == id)
}

/// A state diagram with distinct state ids, whose transitions join its
/// states, whose states without a line of their own (`[*]` and plain
/// states labelled by their id) take part in a transition, and whose ids and
/// labels the reader takes as they stand.
pub open spec fn plain_state(d: StateDiagramV) -> bool {
    &&& forall|k: int| 0 <= k < d.states.len() ==> state_ok(#[trigger] d.states[k])
    &&& forall|a: int, b: int| 0 <= a < b < d.states.len() ==> (#[trigger] d.states[a]).0 != (#[trigger] d.states[b]).0
    &&& forall|k: int| 0 <= k < d.states.len() && !declared(#[trigger] d.states[k]) ==> in_transition(d, d.states[k].0)
    &&& forall|k: int| 0 <= k < d.transitions.len() ==> trans_ok(#[trigger] d.transitions[k]) && is_state(
        d,
        d.transitions[k].0,
    ) && is_state(d, d.transitions[k].1)
}

pub open spec fn decl_stmt(s: StateV) -> Seq<char> {
    if s.2 == StateNodeKind::Normal {
        "state \""@ + s.1 + "\" as "@ + s.0
    } else {
        "state "@ + s.0 + " <<"@ + kind_word(s.2) + ">>"@
    }
}

pub open spec fn trans_stmt(t: TransV) -> Seq<char> {
    if t.2.len() == 0 {
        t.0 + " --> "@ + t.1
    } else {
        t.0 + " --> "@ + t.1 + ": "@ + t.2
    }
}

pub open spec fn decl_lines(ss: Seq<StateV>) -> Seq<Seq<char>>
    decreases ss.len(),
{
    if ss.len() == 0 {
        Seq::empty()
    } else {
        decl_lines(ss.drop_last()) + (if declared(ss.last()) {
            seq!["    "@ + decl_stmt(ss.last())]
        } else {
            Seq::empty()
        })
    }
}

pub open spec fn decl_stmts(ss: Seq<StateV>) -> Seq<Seq<char>>
    decreases ss.len(),
{
    if ss.len() == 0 {
        Seq::empty()
    } else {
        decl_stmts(ss.drop_last()) + (if declared(ss.last()) {
            seq![decl_stmt(ss.last())]
        } else {
            Seq::empty()
        })
    }
}

pub open spec fn state_raw(d: StateDiagramV) -> Seq<Seq<char>> {
    seq!["stateDiagram-v2"@] + decl_lines(d.states) + d.transitions.map_values(|t: TransV| "    "@ + trans_stmt(t))
}

pub open spec fn state_stmts(d: StateDiagramV) -> Seq<Seq<char>> {
    seq!["stateDiagram-v2"@] + decl_stmts(d.states) + d.transitions.map_values(|t: TransV| trans_stmt(t))
}

proof fn lemma_escape_plain(l: Seq<char>)
    requires
        label_ok(l),
    ensures
        escape_note(l) == l,
    decreases l.len(),
{
    if l.len() > 0 {
        assert forall|j: int| 0 <= j < l.drop_last().len() implies #[trigger] l.drop_last()[j] != '"' && l.drop_last()[j]
            != '\\' && l.drop_last()[j] != '{' && l.drop_last()[j] != '\n' by {
            assert(l.drop_last()[j] == l[j]);
        }
        lemma_escape_plain(l.drop_last());
        assert(l[l.len() - 1] != '"' && l[l.len() - 1] != '\\');
        assert(l.drop_last() + seq![l.last()] =~= l);
    }
}

proof fn lemma_decl_text(s: StateV)
    requires
        state_ok(s),
    ensures
        state_line(s) == (if declared(s) {
            "    "@ + decl_stmt(s) + "\n"@
        } else {
            Seq::<char>::empty()
        }),
        declared(s) ==> one_line("    "@ + decl_stmt(s)) && trim("    "@ + decl_stmt(s)) == decl_stmt(s) && keep_content(
            decl_stmt(s),
        ),
{
    reveal_strlit("    state \"");
    reveal_strlit("\" as ");
    reveal_strlit("    state ");
    reveal_strlit(" <<choice>>\n");
    reveal_strlit(" <<fork>>\n");
    reveal_strlit(" <<join>>\n");
    reveal_strlit("state \"");
    reveal_strlit("state ");
    reveal_strlit(" <<");
    reveal_strlit(">>");
    reveal_strlit("choice");
    reveal_strlit("fork");
    reveal_strlit("join");
    reveal_strlit("    ");
    reveal_strlit("\n");
    reveal_strlit("[*]");
    lemma_spaces();
    if declared(s) {
        let t = decl_stmt(s);
        let l = "    "@ + t;
        assert(t[0] == 's');
        if s.2 == StateNodeKind::Normal {
            lemma_escape_plain(s.1);
            assert(state_line(s) =~= l + "\n"@);
            assert(t.last() == s.0.last());
            assert(!is_ws(s.0[s.0.len() - 1]));
            let o = 11 + s.1.len();
            assert forall|j: int| 0 <= j < l.len() implies #[trigger] l[j] != '\n' by {
                if 11 <= j < o {
                    assert(l[j] == s.1[j - 11]);
                } else if o + 5 <= j {
                    assert(l[j] == s.0[j - o - 5]);
                }
            }
        } else {
            assert(state_line(s) =~= l + "\n"@);
            assert(t.last() == '>');
            assert forall|j: int| 0 <= j < l.len() implies #[trigger] l[j] != '\n' by {
                if 10 <= j < 10 + s.0.len() {
                    assert(l[j] == s.0[j - 10]);
                } else if 10 + s.0.len() + 3 <= j < 10 + s.0.len() + 3 + kind_word(s.2).len() {
                    assert(l[j] == kind_word(s.2)[j - 13 - s.0.len()]);
                }
            }
        }
        lemma_trim_lead("    "@, t);
        lemma_not_comment(t);
    } else {
        if s.0 != "[*]"@ {
            assert(s.2 == StateNodeKind::Normal);
            assert(s.1 == s.0);
        }
    }
}

proof fn lemma_decl_lines(ss: Seq<StateV>)
    requires
        forall|k: int| 0 <= k < ss.len() ==> state_ok(#[trigger] ss[k]),
    ensures
        flat(ss, |s: StateV| state_line(s)) == nl_text(decl_lines(ss)),
        decl_lines(ss).len() == decl_stmts(ss).len(),
        forall|x: int| 0 <= x < decl_lines(ss).len() ==> one_line(#[trigger] decl_lines(ss)[x]) && trim(decl_lines(ss)[x])
            == decl_stmts(ss)[x] && keep_content(decl_stmts(ss)[x]),
    decreases ss.len(),
{
    if ss.len() > 0 {
        let p = ss.drop_last();
        assert forall|k: int| 0 <= k < p.len() implies state_ok(#[trigger] p[k]) by {
            assert(p[k] == ss[k]);
        }
        lemma_decl_lines(p);
        let s = ss.last();
        assert(state_ok(ss[ss.len() - 1]));
        lemma_decl_text(s);
        let extra = if declared(s) {
            seq!["    "@ + decl_stmt(s)]
        } else {
            Seq::<Seq<char>>::empty()
        };
        lemma_nl_append(decl_lines(p), extra);
        if declared(s) {
            lemma_nl_one("    "@ + decl_stmt(s));
        } else {
            assert(nl_text(extra) == Seq::<char>::empty());
            assert(flat(p, |s: StateV| state_line(s)) + Seq::<char>::empty() =~= flat(p, |s: StateV| state_line(s)));
        }
        let a = decl_lines(ss);
        let b = decl_stmts(ss);
        let m = decl_lines(p).len() as int;
        assert forall|x: int| 0 <= x < a.len() implies one_line(#[trigger] a[x]) && trim(a[x]) == b[x] && keep_content(
            b[x],
        ) by {
            if x < m {
                assert(a[x] == decl_lines(p)[x]);
                assert(b[x] == decl_stmts(p)[x]);
            } else {
                assert(a[x] == "    "@ + decl_stmt(s));
                assert(b[x] == decl_stmt(s));
            }
        }
    } else {
        assert(nl_text(decl_lines(ss)) == Seq::<char>::empty());
    }
}

proof fn lemma_trans_text(t: TransV)
    requires
        trans_ok(t),
    ensures
        transition_text(t) == "    "@ + trans_stmt(t) + "\n"@,
        one_line("    "@ + trans_stmt(t)),
        trim("    "@ + trans_stmt(t)) == trans_stmt(t),
        keep_content(trans_stmt(t)),
{
    reveal_strlit("    ");
    reveal_strlit(" --> ");
    reveal_strlit(": ");
    reveal_strlit("\n");
    lemma_spaces();
    let x = trans_stmt(t);
    assert(transition_text(t) =~= "    "@ + x + "\n"@);
    assert(x[0] == t.0[0]);
    assert(!is_ws(t.0[0]));
    if t.2.len() == 0 {
        assert(x.last() == t.1.last());
        assert(!is_ws(t.1[t.1.len() - 1]));
    } else {
        assert(x.last() == t.2.last());
    }
    lemma_trim_lead("    "@, x);
    lemma_not_comment(x);
    let l = "    "@ + x;
    let a = t.0.len() as int;
    let b = a + 5 + t.1.len();
    assert forall|j: int| 0 <= j < l.len() implies #[trigger] l[j] != '\n' by {
        let k = j - 4;
        if 0 <= k < a {
            assert(l[j] == t.0[k]);
        } else if a + 5 <= k < b {
            assert(l[j] == t.1[k - a - 5]);
        } else if b + 2 <= k {
            assert(l[j] == t.2[k - b - 2]);
        }
    }
}

proof fn lemma_state_text(d: StateDiagramV)
    requires
        plain_state(d),
    ensures
        state_raw(d).len() == state_stmts(d).len(),
        kept_numbered(lines(state_mermaid(d)), |l: Seq<char>| keep_content(l)) == Seq::new(
            state_raw(d).len(),
            |i: int| (i + 1, state_stmts(d)[i]),
        ),
{
    reveal_strlit("stateDiagram-v2\n");
    reveal_strlit("stateDiagram-v2");
    reveal_strlit("\n");
    let ss = d.states;
    let ts = d.transitions;
    lemma_decl_lines(ss);
    let ft = |t: TransV| transition_text(t);
    let gt = |t: TransV| "    "@ + trans_stmt(t);
    assert forall|k: int| 0 <= k < ts.len() implies ft(#[trigger] ts[k]) == gt(ts[k]) + "\n"@ by {
        assert(trans_ok(ts[k]));
        lemma_trans_text(ts[k]);
    }
    lemma_flat_map(ts, ft, gt);
    let h = seq!["stateDiagram-v2"@];
    let dl = decl_lines(ss);
    let tl = ts.map_values(gt);
    lemma_nl_one("stateDiagram-v2"@);
    lemma_nl_append(h + dl, tl);
    lemma_nl_append(h, dl);
    let raw = state_raw(d);
    assert(raw =~= h + dl + tl);
    assert(state_mermaid(d) =~= nl_text(h) + nl_text(dl) + nl_text(tl));
    let st = state_stmts(d);
    let m = dl.len() as int;
    assert forall|i: int| 0 <= i < raw.len() implies one_line(#[trigger] raw[i]) && trim(raw[i]) == st[i] && keep_content(
        st[i],
    ) by {
        if i == 0 {
            assert(raw[0] == "stateDiagram-v2"@);
            assert(st[0] == "stateDiagram-v2"@);
            crate::text::lemma_trim_fixed(raw[0]);
            lemma_not_comment(st[0]);
        } else if i <= m {
            assert(raw[i] == dl[i - 1]);
            assert(st[i] == decl_stmts(ss)[i - 1]);
        } else {
            let k = i - 1 - m;
            assert(trans_ok(ts[k]));
            lemma_trans_text(ts[k]);
            assert(raw[i] == "    "@ + trans_stmt(ts[k]));
            assert(st[i] == trans_stmt(ts[k]));
        }
    }
    lemma_lines_nl(raw);
    lemma_numbered_all(raw, st);
}

/// What the standard lower-casing gives for the three state kinds: each
/// unchanged, as for any lower-case ASCII text.
pub open spec fn kinds_lower() -> bool {
    &&& lowercase("choice"@) == "choice"@
    &&& lowercase("fork"@) == "fork"@
    &&& lowercase("join"@) == "join"@
}

proof fn lemma_label_decl(ls: Seq<(int, Seq<char>)>, i: int, st: StSt, s: StateV)
    requires
        0 <= i < ls.len(),
        state_ok(s),
        declared(s),
        s.2 == StateNodeKind::Normal,
        ls[i].1 == decl_stmt(s),
    ensures
        st_step(ls, i, st) == Ok::<(int, StSt), (Seq<char>, Option<int>)>(
            (i + 1, StSt { labels: assoc_insert(st.labels, s.0, s.1), ..st }),
        ),
{
    reveal_strlit("state \"");
    reveal_strlit("\" as ");
    reveal_strlit("state ");
    reveal_strlit("as ");
    reveal_strlit(" ");
    reveal_strlit("\"");
    let text = decl_stmt(s);
    let l = s.1;
    let x = s.0;
    let n = l.len() as int;
    assert(text.subrange(0, 6) =~= "state "@);
    assert(!text.contains('{')) by {
        if text.contains('{') {
            let j = choose|j: int| 0 <= j < text.len() && text[j] == '{';
            if 7 <= j < 7 + n {
                assert(text[j] == l[j - 7]);
            } else if 7 + n + 5 <= j {
                assert(text[j] == x[j - 12 - n]);
            }
        }
    }
    let rest = text.subrange(6, text.len() as int);
    assert(rest =~= "\""@ + l + "\" as "@ + x);
    assert(rest[0] == '"');
    assert(rest.last() == x.last());
    assert(!is_ws(x[x.len() - 1]));
    crate::text::lemma_trim_fixed(rest);
    assert(trim_start(rest) == rest);
    let r1 = rest.subrange(1, rest.len() as int);
    assert(r1 =~= l + "\" as "@ + x);
    lemma_find_char_from(r1, '"', 0);
    assert forall|j: int| 0 <= j < n implies r1[j] != '"' by {
        assert(r1[j] == l[j]);
    }
    assert(r1[n] == '"');
    assert(find_char(r1, '"') == Some(n));
    assert(r1.subrange(0, n) =~= l);
    let after = r1.subrange(n + 1, r1.len() as int);
    assert(after =~= " "@ + ("as "@ + x));
    assert(after.drop_first() =~= "as "@ + x);
    assert(trim_start(after) == trim_start("as "@ + x));
    let asx = "as "@ + x;
    assert(asx[0] == 'a');
    assert(trim_start(asx) == asx);
    assert(asx.last() == x.last());
    crate::text::lemma_trim_fixed(asx);
    assert(asx.subrange(0, 3) =~= "as "@);
    assert(asx.subrange(3, asx.len() as int) =~= x);
    assert(!is_ws(x[0]));
    crate::text::lemma_trim_fixed(x);
    assert(state_as(rest) == Some((l, x)));
}

/// The text after `state ` of a stereotype line.
pub open spec fn fancy_rest(x: Seq<char>, kw: Seq<char>) -> Seq<char> {
    x + " <<"@ + kw + ">>"@
}

#[verifier::rlimit(40)]
proof fn lemma_fancy_not_as(x: Seq<char>, kw: Seq<char>)
    requires
        st_id(x),
        kw.len() > 0,
        forall|j: int| 0 <= j < kw.len() ==> #[trigger] kw[j] != '<' && kw[j] != '>' && !is_ws(kw[j]),
    ensures
        state_as(fancy_rest(x, kw)) is None,
        trim(fancy_rest(x, kw)) == fancy_rest(x, kw),
{
    reveal_strlit(" <<");
    reveal_strlit("<<");
    reveal_strlit(">>");
    reveal_strlit("as ");
    let rest = fancy_rest(x, kw);
    let q = x.len() as int;
    assert(rest[0] == x[0]);
    assert(!is_ws(x[0]));
    assert(rest.last() == '>');
    crate::text::lemma_trim_fixed(rest);
    assert(rest[0] != '"');
    let isw = |c: char| is_ws(c);
    crate::text::lemma_first_from(rest, isw, 0);
    assert forall|j: int| 0 <= j < q implies !isw(#[trigger] rest[j]) by {
        assert(rest[j] == x[j]);
    }
    assert(isw(rest[q]));
    assert(crate::text::first(rest, isw) == Some(q));
    let aft = rest.subrange(q, rest.len() as int);
    assert(aft =~= " <<"@ + kw + ">>"@);
    let ta = trim(aft);
    let core = "<<"@ + kw + ">>"@;
    assert(aft.drop_first() =~= core);
    assert(trim_start(aft) == trim_start(core));
    assert(core[0] == '<');
    assert(core.last() == '>');
    crate::text::lemma_trim_fixed(core);
    assert(ta == core);
    assert(!"as "@.is_prefix_of(ta)) by {
        if "as "@.is_prefix_of(ta) {
            assert(ta.subrange(0, 3)[0] == ta[0]);
        }
    }
}

#[verifier::rlimit(40)]
proof fn lemma_fancy_stereo(x: Seq<char>, kw: Seq<char>)
    requires
        st_id(x),
        kw.len() > 0,
        !is_ws(kw[0]),
        !is_ws(kw.last()),
        forall|j: int| 0 <= j < kw.len() ==> #[trigger] kw[j] != '<' && kw[j] != '>',
    ensures
        state_stereotype(fancy_rest(x, kw)) == Some((x, kind_keyword(lowercase(kw)))),
{
    reveal_strlit(" <<");
    reveal_strlit("<<");
    reveal_strlit(">>");
    reveal_strlit(" ");
    let rest = fancy_rest(x, kw);
    let q = x.len() as int;
    let kl = kw.len() as int;
    assert(rest[0] == x[0]);
    assert(!is_ws(x[0]));
    assert(rest.last() == '>');
    crate::text::lemma_trim_fixed(rest);
    let open = q + 1;
    assert forall|j: int| open < j <= rest.len() - 2 implies !occurs_at(rest, "<<"@, j) by {
        if occurs_at(rest, "<<"@, j) {
            assert(rest.subrange(j, j + 2)[1] == rest[j + 1]);
            if j + 1 < q + 3 + kl {
                assert(rest[j + 1] == kw[j + 1 - q - 3]);
            }
        }
    }
    assert(occurs_at(rest, "<<"@, open)) by {
        assert(rest.subrange(open, open + 2) =~= "<<"@);
    }
    lemma_rfind_down(rest, "<<"@, open, rest.len() - 2);
    let sub = rest.subrange(open, rest.len() as int);
    assert(sub =~= "<<"@ + kw + ">>"@);
    let close = 2 + kl;
    assert(occurs_at(sub, ">>"@, close)) by {
        assert(sub.subrange(close, close + 2) =~= ">>"@);
    }
    assert forall|j: int| 0 <= j < close implies !occurs_at(sub, ">>"@, j) by {
        if occurs_at(sub, ">>"@, j) {
            assert(sub.subrange(j, j + 2)[0] == sub[j]);
            if j >= 2 {
                assert(sub[j] == kw[j - 2]);
            }
        }
    }
    lemma_find_first(sub, ">>"@, close);
    assert(rest.subrange(0, open) =~= x + " "@);
    assert(!is_ws(x[q - 1]));
    lemma_trim_space_end(x);
    assert(rest.subrange(open + 2, open + close) =~= kw);
    crate::text::lemma_trim_fixed(kw);
}

proof fn lemma_fancy_decl(ls: Seq<(int, Seq<char>)>, i: int, st: StSt, s: StateV)
    requires
        0 <= i < ls.len(),
        state_ok(s),
        fancy(s.2),
        kinds_lower(),
        ls[i].1 == decl_stmt(s),
    ensures
        st_step(ls, i, st) == Ok::<(int, StSt), (Seq<char>, Option<int>)>(
            (
                i + 1,
                StSt { kinds: assoc_insert(st.kinds, s.0, s.2), labels: assoc_default(st.labels, s.0, s.0), ..st },
            ),
        ),
{
    reveal_strlit("state ");
    reveal_strlit(" <<");
    reveal_strlit(">>");
    reveal_strlit("choice");
    reveal_strlit("fork");
    reveal_strlit("join");
    let text = decl_stmt(s);
    let x = s.0;
    let q = x.len() as int;
    let kw = kind_word(s.2);
    let kl = kw.len() as int;
    assert(text =~= "state "@ + fancy_rest(x, kw));
    assert(text.subrange(0, 6) =~= "state "@);
    assert(!text.contains('{')) by {
        if text.contains('{') {
            let j = choose|j: int| 0 <= j < text.len() && text[j] == '{';
            if 6 <= j < 6 + q {
                assert(text[j] == x[j - 6]);
            } else if 6 + q + 3 <= j < 6 + q + 3 + kl {
                assert(text[j] == kw[j - 9 - q]);
            }
        }
    }
    assert(text.subrange(6, text.len() as int) =~= fancy_rest(x, kw));
    lemma_fancy_not_as(x, kw);
    lemma_fancy_stereo(x, kw);
    assert(kind_keyword(lowercase(kw)) == s.2) by {
        assert("fork"@ != "choice"@) by { assert("fork"@[0] != "choice"@[0]); }
        assert("join"@ != "choice"@) by { assert("join"@[0] != "choice"@[0]); }
        assert("join"@ != "fork"@) by { assert("join"@[0] != "fork"@[0]); }
    }
}

proof fn lemma_rfind_down(s: Seq<char>, p: Seq<char>, at: int, j: int)
    requires
        0 <= at <= j,
        occurs_at(s, p, at),
        forall|k: int| at < k <= j ==> !occurs_at(s, p, k),
    ensures
        rfind_before(s, p, j) == Some(at),
    decreases j - at,
{
    if j > at {
        lemma_rfind_down(s, p, at, j - 1);
    }
}

proof fn lemma_trans_step(ls: Seq<(int, Seq<char>)>, i: int, st: StSt, t: TransV)
    requires
        0 <= i < ls.len(),
        trans_ok(t),
        ls[i].1 == trans_stmt(t),
    ensures
        st_step(ls, i, st) == Ok::<(int, StSt), (Seq<char>, Option<int>)>(
            (
                i + 1,
                StSt {
                    kinds: mark_start_end(mark_start_end(st.kinds, t.0), t.1),
                    transitions: st.transitions.push(t),
                    ..st
                },
            ),
        ),
{
    reveal_strlit("state ");
    reveal_strlit("state");
    reveal_strlit(" --> ");
    reveal_strlit("-->");
    reveal_strlit(": ");
    reveal_strlit(":");
    reveal_strlit(" ");
    let text = trans_stmt(t);
    let a = t.0;
    let q = a.len() as int;
    let tail = if t.2.len() == 0 {
        Seq::<char>::empty()
    } else {
        ": "@ + t.2
    };
    assert(text =~= a + " --> "@ + t.1 + tail);
    assert(text.subrange(0, q) =~= a);
    assert(text[q] == ' ');
    assert("state "@.subrange(0, 5) =~= "state"@);
    lemma_no_kw(text, a, "state "@, 5);
    assert(occurs_at(text, "-->"@, q + 1)) by {
        assert(text.subrange(q + 1, q + 4) =~= "-->"@);
    }
    assert forall|j: int| 0 <= j < q + 1 implies !occurs_at(text, "-->"@, j) by {
        if occurs_at(text, "-->"@, j) {
            assert(text.subrange(j, j + 3)[2] == text[j + 2]);
            if j + 2 < q {
                assert(text[j + 2] == a[j + 2]);
            } else if j + 2 == q {
                assert(text[q] == ' ');
            }
        }
    }
    lemma_find_first(text, "-->"@, q + 1);
    assert(text.subrange(0, q + 1) =~= a + " "@);
    assert(!is_ws(a[0]) && !is_ws(a[q - 1]));
    lemma_trim_space_end(a);
    let r = text.subrange(q + 4, text.len() as int);
    let w = t.1 + tail;
    assert(r =~= " "@ + w);
    assert(w[0] == t.1[0]);
    assert(!is_ws(t.1[0]) && !is_ws(t.1[t.1.len() - 1]));
    if t.2.len() == 0 {
        assert(w =~= t.1);
    } else {
        assert(w.last() == t.2.last());
    }
    lemma_trim_space_end(w);
    let b = t.1.len() as int;
    if t.2.len() == 0 {
        assert forall|j: int| 0 <= j implies !occurs_at(w, ":"@, j) by {
            if occurs_at(w, ":"@, j) {
                assert(w.subrange(j, j + 1)[0] == w[j]);
                assert(w[j] == t.1[j]);
            }
        }
        lemma_find_absent(w, ":"@);
    } else {
        assert(occurs_at(w, ":"@, b)) by {
            assert(w.subrange(b, b + 1) =~= ":"@);
        }
        assert forall|j: int| 0 <= j < b implies !occurs_at(w, ":"@, j) by {
            if occurs_at(w, ":"@, j) {
                assert(w.subrange(j, j + 1)[0] == w[j]);
                assert(w[j] == t.1[j]);
            }
        }
        lemma_find_first(w, ":"@, b);
        assert(w.subrange(0, b) =~= t.1);
        crate::text::lemma_trim_fixed(t.1);
        assert(w.subrange(b + 1, w.len() as int) =~= " "@ + t.2);
        lemma_trim_space_end(t.2);
    }
    assert(transition_line(text) == Some(t));
}

/// Labels the reader records for the declared states, in order.
pub open spec fn lab(ss: Seq<StateV>) -> Seq<(Seq<char>, Seq<char>)>
    decreases ss.len(),
{
    if ss.len() == 0 {
        Seq::empty()
    } else {
        lab(ss.drop_last()) + (if declared(ss.last()) {
            seq![(ss.last().0, ss.last().1)]
        } else {
            Seq::empty()
        })
    }
}

/// Kinds the reader records for the choice, fork and join states, in order.
pub open spec fn kin(ss: Seq<StateV>) -> Seq<(Seq<char>, StateNodeKind)>
    decreases ss.len(),
{
    if ss.len() == 0 {
        Seq::empty()
    } else {
        kin(ss.drop_last()) + (if fancy(ss.last().2) {
            seq![(ss.last().0, ss.last().2)]
        } else {
            Seq::empty()
        })
    }
}

pub open spec fn has_star(ts: Seq<TransV>) -> bool {
    exists|k: int| 0 <= k < ts.len() && ((#[trigger] ts[k]).0 == "[*]"@ || ts[k].1 == "[*]"@)
}

pub open spec fn star(ts: Seq<TransV>) -> Seq<(Seq<char>, StateNodeKind)> {
    if has_star(ts) {
        seq![("[*]"@, StateNodeKind::StartEnd)]
    } else {
        Seq::empty()
    }
}

proof fn lemma_lookup_push<V>(m: Seq<(Seq<char>, V)>, e: (Seq<char>, V), k: Seq<char>)
    ensures
        lookup(m.push(e), k) == (if lookup(m, k) is Some {
            lookup(m, k)
        } else if e.0 == k {
            Some(e.1)
        } else {
            None
        }),
        key_pos(keys_of(m), k) is None ==> key_pos(keys_of(m.push(e)), k) == (if e.0 == k {
            Some(m.len() as int)
        } else {
            None
        }),
{
    let km = keys_of(m);
    let kp = keys_of(m.push(e));
    assert(kp =~= km.push(e.0));
    lemma_key_pos_from(km, k, 0);
    lemma_key_pos_from(kp, k, 0);
    match key_pos(km, k) {
        Some(j) => {
            match key_pos(kp, k) {
                Some(j2) => {
                    if j2 < j {
                        assert(kp[j2] == km[j2]);
                    } else if j2 > j {
                        assert(kp[j] == km[j]);
                    }
                },
                None => {
                    assert(kp[j] == km[j]);
                },
            }
        },
        None => {
            match key_pos(kp, k) {
                Some(j2) => {
                    if j2 < m.len() {
                        assert(kp[j2] == km[j2]);
                    }
                },
                None => {
                    if e.0 == k {
                        assert(kp[m.len() as int] == k);
                    }
                },
            }
        },
    }
}

pub open spec fn distinct_ids(ss: Seq<StateV>) -> bool {
    forall|a: int, b: int| 0 <= a < b < ss.len() ==> (#[trigger] ss[a]).0 != (#[trigger] ss[b]).0
}

proof fn lemma_lab_lookup(ss: Seq<StateV>, id: Seq<char>)
    requires
        distinct_ids(ss),
    ensures
        forall|a: int| 0 <= a < ss.len() && (#[trigger] ss[a]).0 == id && declared(ss[a]) ==> lookup(lab(ss), id) == Some(
            ss[a].1,
        ),
        (forall|a: int| 0 <= a < ss.len() ==> !((#[trigger] ss[a]).0 == id && declared(ss[a]))) ==> lookup(lab(ss), id)
            is None,
        key_pos(keys_of(lab(ss)), id) is Some <==> exists|a: int| 0 <= a < ss.len() && (#[trigger] ss[a]).0 == id && declared(
            ss[a],
        ),
    decreases ss.len(),
{
    if ss.len() == 0 {
        assert(keys_of(lab(ss)) =~= Seq::<Seq<char>>::empty());
        assert(key_pos(keys_of(lab(ss)), id) is None);
    } else {
        let p = ss.drop_last();
        assert forall|a: int, b: int| 0 <= a < b < p.len() implies (#[trigger] p[a]).0 != (#[trigger] p[b]).0 by {
            assert(p[a] == ss[a] && p[b] == ss[b]);
        }
        lemma_lab_lookup(p, id);
        let e = ss.last();
        let n = ss.len() - 1;
        lemma_key_pos_from(keys_of(lab(p)), id, 0);
        lemma_key_pos_from(keys_of(lab(ss)), id, 0);
        if declared(e) {
            assert(lab(ss) == lab(p).push((e.0, e.1)));
            lemma_lookup_push(lab(p), (e.0, e.1), id);
            assert(keys_of(lab(ss)) =~= keys_of(lab(p)).push(e.0));
            if e.0 == id {
                assert forall|a: int| 0 <= a < p.len() implies !((#[trigger] p[a]).0 == id && declared(p[a])) by {
                    assert(ss[a].0 != ss[n].0);
                }
            }
        } else {
            assert(lab(ss) =~= lab(p));
        }
        assert forall|a: int| 0 <= a < ss.len() && (#[trigger] ss[a]).0 == id && declared(ss[a]) implies lookup(lab(ss), id)
            == Some(ss[a].1) by {
            if a < n {
                assert(p[a] == ss[a]);
            }
        }
        if exists|a: int| 0 <= a < ss.len() && (#[trigger] ss[a]).0 == id && declared(ss[a]) {
            let a = choose|a: int| 0 <= a < ss.len() && (#[trigger] ss[a]).0 == id && declared(ss[a]);
            if a < n {
                assert(p[a] == ss[a]);
            }
        }
        if key_pos(keys_of(lab(ss)), id) is Some {
            if key_pos(keys_of(lab(p)), id) is Some {
                let a = choose|a: int| 0 <= a < p.len() && (#[trigger] p[a]).0 == id && declared(p[a]);
                assert(ss[a] == p[a]);
            } else {
                assert(declared(e) && e.0 == id);
                assert(ss[n] == e);
            }
        }
    }
}

proof fn lemma_kin_lookup(ss: Seq<StateV>, id: Seq<char>)
    requires
        distinct_ids(ss),
    ensures
        forall|a: int| 0 <= a < ss.len() && (#[trigger] ss[a]).0 == id && fancy(ss[a].2) ==> lookup(kin(ss), id) == Some(
            ss[a].2,
        ),
        (forall|a: int| 0 <= a < ss.len() ==> !((#[trigger] ss[a]).0 == id && fancy(ss[a].2))) ==> key_pos(
            keys_of(kin(ss)),
            id,
        ) is None,
    decreases ss.len(),
{
    if ss.len() == 0 {
        assert(keys_of(kin(ss)) =~= Seq::<Seq<char>>::empty());
    } else {
        let p = ss.drop_last();
        assert forall|a: int, b: int| 0 <= a < b < p.len() implies (#[trigger] p[a]).0 != (#[trigger] p[b]).0 by {
            assert(p[a] == ss[a] && p[b] == ss[b]);
        }
        lemma_kin_lookup(p, id);
        let e = ss.last();
        let n = ss.len() - 1;
        if fancy(e.2) {
            assert(kin(ss) == kin(p).push((e.0, e.2)));
            lemma_lookup_push(kin(p), (e.0, e.2), id);
            if e.0 == id {
                assert forall|a: int| 0 <= a < p.len() implies !((#[trigger] p[a]).0 == id && fancy(p[a].2)) by {
                    assert(ss[a].0 != ss[n].0);
                }
            }
        } else {
            assert(kin(ss) =~= kin(p));
        }
        assert forall|a: int| 0 <= a < ss.len() && (#[trigger] ss[a]).0 == id && fancy(ss[a].2) implies lookup(kin(ss), id)
            == Some(ss[a].2) by {
            if a < n {
                assert(p[a] == ss[a]);
            }
        }
        if forall|a: int| 0 <= a < ss.len() ==> !((#[trigger] ss[a]).0 == id && fancy(ss[a].2)) {
            assert forall|a: int| 0 <= a < p.len() implies !((#[trigger] p[a]).0 == id && fancy(p[a].2)) by {
                assert(p[a] == ss[a]);
            }
            assert(ss[n] == e);
        }
    }
}

proof fn lemma_ds_step(ss: Seq<StateV>, k: int)
    requires
        0 <= k < ss.len(),
    ensures
        decl_stmts(ss.take(k + 1)) == decl_stmts(ss.take(k)) + (if declared(ss[k]) {
            seq![decl_stmt(ss[k])]
        } else {
            Seq::empty()
        }),
        lab(ss.take(k + 1)) == lab(ss.take(k)) + (if declared(ss[k]) {
            seq![(ss[k].0, ss[k].1)]
        } else {
            Seq::empty()
        }),
        kin(ss.take(k + 1)) == kin(ss.take(k)) + (if fancy(ss[k].2) {
            seq![(ss[k].0, ss[k].2)]
        } else {
            Seq::empty()
        }),
{
    assert(ss.take(k + 1).drop_last() =~= ss.take(k));
    assert(ss.take(k + 1).last() == ss[k]);
}

proof fn lemma_ds_prefix(ss: Seq<StateV>, m: int)
    requires
        0 <= m <= ss.len(),
    ensures
        decl_stmts(ss.take(m)).len() <= decl_stmts(ss).len(),
        forall|x: int| 0 <= x < decl_stmts(ss.take(m)).len() ==> #[trigger] decl_stmts(ss)[x] == decl_stmts(ss.take(m))[x],
    decreases ss.len(),
{
    if m == ss.len() {
        assert(ss.take(m) =~= ss);
    } else {
        let p = ss.drop_last();
        assert(p.take(m) =~= ss.take(m));
        lemma_ds_prefix(p, m);
        assert forall|x: int| 0 <= x < decl_stmts(ss.take(m)).len() implies #[trigger] decl_stmts(ss)[x] == decl_stmts(
            ss.take(m),
        )[x] by {
            assert(decl_stmts(ss)[x] == decl_stmts(p)[x]);
        }
    }
}

pub open spec fn decl_start(ss: Seq<StateV>, k: int) -> int {
    1 + decl_stmts(ss.take(k)).len() as int
}

pub open spec fn decl_state(ss: Seq<StateV>, k: int) -> StSt {
    StSt { labels: lab(ss.take(k)), kinds: kin(ss.take(k)), transitions: Seq::empty() }
}

#[verifier::rlimit(60)]
proof fn lemma_run_decls(d: StateDiagramV, ls: Seq<(int, Seq<char>)>, k: int)
    requires
        plain_state(d),
        kinds_lower(),
        ls == Seq::new(state_stmts(d).len(), |i: int| (i + 1, state_stmts(d)[i])),
        0 <= k <= d.states.len(),
    ensures
        st_run(ls, decl_start(d.states, k), decl_state(d.states, k)) == st_run(
            ls,
            decl_start(d.states, d.states.len() as int),
            decl_state(d.states, d.states.len() as int),
        ),
    decreases d.states.len() - k,
{
    let ss = d.states;
    if k < ss.len() {
        let t = state_stmts(d);
        let p = decl_start(ss, k);
        let s = ss[k];
        assert(state_ok(s));
        lemma_ds_step(ss, k);
        lemma_ds_prefix(ss, k + 1);
        assert(t.len() == 1 + decl_stmts(ss).len() + d.transitions.len());
        let tk = ss.take(k);
        assert(distinct_ids(tk)) by {
            assert forall|a: int, b: int| 0 <= a < b < tk.len() implies (#[trigger] tk[a]).0 != (#[trigger] tk[b]).0 by {
                assert(tk[a] == ss[a] && tk[b] == ss[b]);
            }
        }
        assert forall|a: int| 0 <= a < tk.len() implies (#[trigger] tk[a]).0 != s.0 by {
            assert(tk[a] == ss[a]);
        }
        lemma_lab_lookup(tk, s.0);
        lemma_kin_lookup(tk, s.0);
        if declared(s) {
            let lk = decl_stmts(tk).len() as int;
            assert(ls[p].1 == t[p]);
            assert(t[p] == decl_stmts(ss)[lk]);
            assert(decl_stmts(ss)[lk] == decl_stmts(ss.take(k + 1))[lk]);
            assert(ls[p].1 == decl_stmt(s));
            let st = decl_state(ss, k);
            let kl = keys_of(lab(tk));
            assert(key_pos(kl, s.0) is None);
            if s.2 == StateNodeKind::Normal {
                lemma_label_decl(ls, p, st, s);
                assert(assoc_insert(lab(tk), s.0, s.1) == lab(tk).push((s.0, s.1)));
                assert(!fancy(s.2));
                assert(StSt { labels: assoc_insert(st.labels, s.0, s.1), ..st } == decl_state(ss, k + 1));
            } else {
                assert(fancy(s.2));
                lemma_fancy_decl(ls, p, st, s);
                assert(key_pos(keys_of(kin(tk)), s.0) is None);
                assert(assoc_insert(kin(tk), s.0, s.2) == kin(tk).push((s.0, s.2)));
                assert(assoc_default(lab(tk), s.0, s.0) == lab(tk).push((s.0, s.0)));
                assert(s.1 == s.0);
                assert(StSt { kinds: assoc_insert(st.kinds, s.0, s.2), labels: assoc_default(st.labels, s.0, s.0), ..st }
                    == decl_state(ss, k + 1));
            }
            assert(decl_start(ss, k + 1) == p + 1);
            assert(decl_stmts(ss.take(k + 1)).len() <= decl_stmts(ss).len());
            assert(p + 1 <= ls.len());
            assert(st_step(ls, p, st) == Ok::<(int, StSt), (Seq<char>, Option<int>)>((p + 1, decl_state(ss, k + 1))));
            assert(st_run(ls, p, st) == st_run(ls, p + 1, decl_state(ss, k + 1)));
        } else {
            assert(!fancy(s.2)) by {
                if fancy(s.2) {
                    assert(s.0 != "[*]"@);
                }
            }
            assert(decl_stmts(ss.take(k + 1)) =~= decl_stmts(tk));
            assert(lab(ss.take(k + 1)) =~= lab(tk));
            assert(kin(ss.take(k + 1)) =~= kin(tk));
            assert(decl_state(ss, k + 1) == decl_state(ss, k));
        }
        lemma_run_decls(d, ls, k + 1);
    }
}

proof fn lemma_mark_star(d: StateDiagramV, ts: Seq<TransV>, id: Seq<char>, before: Seq<TransV>, after: Seq<TransV>)
    requires
        plain_state(d),
        has_star(after) <==> (has_star(before) || id == "[*]"@),
    ensures
        mark_start_end(kin(d.states) + star(before), id) == kin(d.states) + star(after),
{
    reveal_strlit("[*]");
    let ss = d.states;
    assert(distinct_ids(ss));
    let kk = kin(ss) + star(before);
    if id == "[*]"@ {
        lemma_kin_lookup(ss, id);
        assert forall|a: int| 0 <= a < ss.len() implies !((#[trigger] ss[a]).0 == id && fancy(ss[a].2)) by {
            assert(state_ok(ss[a]));
        }
        assert(key_pos(keys_of(kin(ss)), id) is None);
        if has_star(before) {
            assert(kk == kin(ss).push(("[*]"@, StateNodeKind::StartEnd)));
            lemma_lookup_push(kin(ss), ("[*]"@, StateNodeKind::StartEnd), id);
            let j = kin(ss).len() as int;
            assert(key_pos(keys_of(kk), id) == Some(j));
            assert(kk.update(j, (id, StateNodeKind::StartEnd)) =~= kk);
        } else {
            assert(kk =~= kin(ss));
            assert(kin(ss) + star(after) =~= kin(ss).push(("[*]"@, StateNodeKind::StartEnd)));
        }
    } else {
        assert(star(after) == star(before));
    }
}

#[verifier::rlimit(60)]
proof fn lemma_run_trans(d: StateDiagramV, ls: Seq<(int, Seq<char>)>, k: int)
    requires
        plain_state(d),
        ls == Seq::new(state_stmts(d).len(), |i: int| (i + 1, state_stmts(d)[i])),
        0 <= k <= d.transitions.len(),
    ensures
        st_run(
            ls,
            decl_start(d.states, d.states.len() as int) + k,
            StSt {
                labels: lab(d.states),
                kinds: kin(d.states) + star(d.transitions.take(k)),
                transitions: d.transitions.take(k),
            },
        ) == Ok::<StSt, (Seq<char>, Option<int>)>(
            StSt { labels: lab(d.states), kinds: kin(d.states) + star(d.transitions), transitions: d.transitions },
        ),
    decreases d.transitions.len() - k,
{
    let ss = d.states;
    let ts = d.transitions;
    let t = state_stmts(d);
    assert(ss.take(ss.len() as int) =~= ss);
    let i = decl_start(ss, ss.len() as int) + k;
    assert(t.len() == 1 + decl_stmts(ss).len() + ts.len());
    if k == ts.len() {
        assert(ts.take(k) =~= ts);
    } else {
        let tr = ts[k];
        assert(trans_ok(tr));
        assert(ls[i].1 == t[i]);
        assert(t[i] == trans_stmt(tr));
        let st = StSt { labels: lab(ss), kinds: kin(ss) + star(ts.take(k)), transitions: ts.take(k) };
        lemma_trans_step(ls, i, st, tr);
        assert(ts.take(k + 1) =~= ts.take(k).push(tr));
        let half = ts.take(k);
        assert(has_star(ts.take(k + 1)) <==> (has_star(half) || tr.0 == "[*]"@ || tr.1 == "[*]"@)) by {
            if has_star(ts.take(k + 1)) {
                let j = choose|j: int| 0 <= j < ts.take(k + 1).len() && ((#[trigger] ts.take(k + 1)[j]).0 == "[*]"@ || ts.take(k + 1)[j].1 == "[*]"@);
                if j < k {
                    assert(half[j] == ts.take(k + 1)[j]);
                }
            }
            if has_star(half) {
                let j = choose|j: int| 0 <= j < half.len() && ((#[trigger] half[j]).0 == "[*]"@ || half[j].1 == "[*]"@);
                assert(ts.take(k + 1)[j] == half[j]);
            }
            if tr.0 == "[*]"@ || tr.1 == "[*]"@ {
                assert(ts.take(k + 1)[k] == tr);
            }
        }
        // the middle step: after the first end
        let b1 = has_star(half) || tr.0 == "[*]"@;
        let m1 = if b1 { seq![("[*]"@, StateNodeKind::StartEnd)] } else { Seq::<(Seq<char>, StateNodeKind)>::empty() };
        let k1 = kin(ss) + m1;
        assert(mark_start_end(kin(ss) + star(half), tr.0) == k1) by {
            let w = if b1 { seq![tr] } else { Seq::<TransV>::empty() };
            let after = if b1 { seq![("[*]"@, "[*]"@, Seq::<char>::empty())] } else { Seq::<TransV>::empty() };
            assert(has_star(after) <==> b1) by {
                if b1 {
                    assert(after[0].0 == "[*]"@);
                }
            }
            lemma_mark_star(d, ts, tr.0, half, after);
            assert(star(after) == m1);
        }
        assert(mark_start_end(k1, tr.1) == kin(ss) + star(ts.take(k + 1))) by {
            let before = if b1 { seq![("[*]"@, "[*]"@, Seq::<char>::empty())] } else { Seq::<TransV>::empty() };
            assert(has_star(before) <==> b1) by {
                if b1 {
                    assert(before[0].0 == "[*]"@);
                }
            }
            assert(star(before) == m1);
            lemma_mark_star(d, ts, tr.1, before, ts.take(k + 1));
        }
        lemma_run_trans(d, ls, k + 1);
    }
}

proof fn lemma_dedup_contains(xs: Seq<Seq<char>>, y: Seq<char>)
    ensures
        dedup(xs).contains(y) <==> xs.contains(y),
    decreases xs.len(),
{
    if xs.len() > 0 {
        lemma_dedup_contains(xs.drop_last(), y);
        let prev = dedup(xs.drop_last());
        if xs.contains(y) {
            let j = choose|j: int| 0 <= j < xs.len() && xs[j] == y;
            if j < xs.len() - 1 {
                assert(xs.drop_last()[j] == y);
                assert(xs.drop_last().contains(y));
                let q = choose|q: int| 0 <= q < prev.len() && prev[q] == y;
                if !prev.contains(xs.last()) {
                    assert(prev.push(xs.last())[q] == y);
                }
            } else {
                if prev.contains(xs.last()) {
                } else {
                    assert(prev.push(xs.last())[prev.len() as int] == y);
                }
            }
        }
        if dedup(xs).contains(y) {
            let q = choose|q: int| 0 <= q < dedup(xs).len() && dedup(xs)[q] == y;
            if q < prev.len() {
                if !prev.contains(xs.last()) {
                    assert(prev.push(xs.last())[q] == prev[q]);
                }
                assert(prev.contains(y));
                let j = choose|j: int| 0 <= j < xs.drop_last().len() && xs.drop_last()[j] == y;
                assert(xs[j] == y);
            } else {
                assert(xs[xs.len() - 1] == y);
            }
        }
    }
}

proof fn lemma_flat_ends_contains(ts: Seq<TransV>, y: Seq<char>)
    ensures
        flat_ends(ts).contains(y) <==> exists|k: int| 0 <= k < ts.len() && ((#[trigger] ts[k]).0 == y || ts[k].1 == y),
    decreases ts.len(),
{
    if ts.len() > 0 {
        let p = ts.drop_last();
        lemma_flat_ends_contains(p, y);
        let fp = flat_ends(p);
        let e = ts.last();
        let f = fp.push(e.0).push(e.1);
        assert(flat_ends(ts) == f);
        if f.contains(y) {
            let q = choose|q: int| 0 <= q < f.len() && f[q] == y;
            if q < fp.len() {
                assert(fp[q] == y);
                assert(fp.contains(y));
                let k = choose|k: int| 0 <= k < p.len() && ((#[trigger] p[k]).0 == y || p[k].1 == y);
                assert(ts[k] == p[k]);
            } else {
                assert(ts[ts.len() - 1] == e);
            }
        }
        if exists|k: int| 0 <= k < ts.len() && ((#[trigger] ts[k]).0 == y || ts[k].1 == y) {
            let k = choose|k: int| 0 <= k < ts.len() && ((#[trigger] ts[k]).0 == y || ts[k].1 == y);
            if k < ts.len() - 1 {
                assert(p[k] == ts[k]);
                assert(fp.contains(y));
                let q = choose|q: int| 0 <= q < fp.len() && fp[q] == y;
                assert(f[q] == y);
            } else if e.0 == y {
                assert(f[fp.len() as int] == y);
            } else {
                assert(f[fp.len() as int + 1] == y);
            }
        }
    }
}

/// The final reader state gives back each state of the diagram.
proof fn lemma_node(d: StateDiagramV, a: int)
    requires
        plain_state(d),
        0 <= a < d.states.len(),
    ensures
        state_node(
            StSt { labels: lab(d.states), kinds: kin(d.states) + star(d.transitions), transitions: d.transitions },
            d.states[a].0,
        ) == d.states[a],
{
    reveal_strlit("[*]");
    let ss = d.states;
    let s = ss[a];
    assert(state_ok(s));
    assert(distinct_ids(ss));
    lemma_lab_lookup(ss, s.0);
    lemma_kin_lookup(ss, s.0);
    let kk = kin(ss) + star(d.transitions);
    if fancy(s.2) {
        assert(lookup(kin(ss), s.0) == Some(s.2));
        if has_star(d.transitions) {
            lemma_lookup_push(kin(ss), ("[*]"@, StateNodeKind::StartEnd), s.0);
            assert(kk == kin(ss).push(("[*]"@, StateNodeKind::StartEnd)));
        } else {
            assert(kk =~= kin(ss));
        }
    } else {
        assert forall|b: int| 0 <= b < ss.len() implies !((#[trigger] ss[b]).0 == s.0 && fancy(ss[b].2)) by {
            if b != a && ss[b].0 == s.0 {
                if b < a {
                    assert(ss[b].0 != ss[a].0);
                } else {
                    assert(ss[a].0 != ss[b].0);
                }
            }
        }
        let km = keys_of(kin(ss));
        lemma_key_pos_from(km, s.0, 0);
        assert(lookup(kin(ss), s.0) is None);
        if has_star(d.transitions) {
            lemma_lookup_push(kin(ss), ("[*]"@, StateNodeKind::StartEnd), s.0);
            assert(kk == kin(ss).push(("[*]"@, StateNodeKind::StartEnd)));
        } else {
            assert(kk =~= kin(ss));
        }
    }
    if !declared(s) {
        assert forall|b: int| 0 <= b < ss.len() implies !((#[trigger] ss[b]).0 == s.0 && declared(ss[b])) by {
            if b != a && ss[b].0 == s.0 {
                if b < a {
                    assert(ss[b].0 != ss[a].0);
                } else {
                    assert(ss[a].0 != ss[b].0);
                }
            }
        }
    }
}

/// The Mermaid text that the writer prints for a state diagram reads back as
/// that diagram: its transitions (ends and label) in order, and the same set
/// of states (id, label, kind), where state ids are distinct, transitions
/// join its states, states without a line of their own (`[*]` and plain
/// states labelled by their id) take part in a transition, ids hold no
/// whitespace, quote, brace, colon or angle bracket (and are not `state`),
/// labels hold no quote, backslash, brace or line break, `[*]` is exactly
/// the start/end state, choice, fork and join states are labelled by their
/// id, and the standard lower-casing leaves `choice`, `fork` and `join`
/// unchanged (as it does any lower-case ASCII text).
pub proof fn law_state_mermaid_reads_back(d: StateDiagramV)
    requires
        plain_state(d),
    ensures
        kinds_lower() ==> (state_parse(state_mermaid(d)) matches Ok(v) && v.transitions == d.transitions && forall|x: StateV|
            v.states.contains(x) <==> d.states.contains(x)),
{
    if kinds_lower() {
        reveal_strlit("stateDiagram-v2");
        reveal_strlit("stateDiagram");
        lemma_state_text(d);
        let t = state_stmts(d);
        let ls = Seq::new(t.len(), |i: int| (i + 1, t[i]));
        assert(ls[0].1 == "stateDiagram-v2"@);
        assert("stateDiagram"@.is_prefix_of(ls[0].1)) by {
            assert(ls[0].1.subrange(0, 12) =~= "stateDiagram"@);
        }
        let ss = d.states;
        let ts = d.transitions;
        assert(ss.take(0) =~= Seq::<StateV>::empty());
        assert(decl_stmts(ss.take(0)) =~= Seq::<Seq<char>>::empty());
        assert(decl_start(ss, 0) == 1);
        assert(lab(ss.take(0)) =~= Seq::<(Seq<char>, Seq<char>)>::empty());
        assert(kin(ss.take(0)) =~= Seq::<(Seq<char>, StateNodeKind)>::empty());
        lemma_run_decls(d, ls, 0);
        assert(ss.take(ss.len() as int) =~= ss);
        lemma_run_trans(d, ls, 0);
        assert(ts.take(0) =~= Seq::<TransV>::empty());
        assert(!has_star(ts.take(0)));
        assert(star(ts.take(0)) =~= Seq::<(Seq<char>, StateNodeKind)>::empty());
        assert(kin(ss) + star(ts.take(0)) =~= kin(ss));
        assert(decl_state(ss, ss.len() as int).kinds == kin(ss));
        assert(decl_start(ss, ss.len() as int) + 0 == decl_start(ss, ss.len() as int));
        let st = StSt { labels: lab(ss), kinds: kin(ss) + star(ts), transitions: ts };
        let ids = state_ids(st);
        let out = Seq::new(ids.len(), |i: int| state_node(st, ids[i]));
        let keys = Seq::new(st.labels.len(), |i: int| st.labels[i].0);
        let all = keys + flat_ends(ts);
        assert forall|x: StateV| out.contains(x) <==> ss.contains(x) by {
            if out.contains(x) {
                let i = choose|i: int| 0 <= i < out.len() && out[i] == x;
                let id = ids[i];
                assert(ids.contains(id));
                lemma_dedup_contains(all, id);
                let j = choose|j: int| 0 <= j < all.len() && all[j] == id;
                let a: int = if j < keys.len() {
                    assert(keys[j] == id);
                    assert(keys_of(lab(ss))[j] == id);
                    lemma_key_pos_from(keys_of(lab(ss)), id, 0);
                    lemma_lab_lookup(ss, id);
                    choose|a: int| 0 <= a < ss.len() && (#[trigger] ss[a]).0 == id && declared(ss[a])
                } else {
                    assert(flat_ends(ts)[j - keys.len()] == id);
                    lemma_flat_ends_contains(ts, id);
                    let k = choose|k: int| 0 <= k < ts.len() && ((#[trigger] ts[k]).0 == id || ts[k].1 == id);
                    assert(is_state(d, ts[k].0) && is_state(d, ts[k].1));
                    choose|a: int| 0 <= a < ss.len() && (#[trigger] ss[a]).0 == id
                };
                lemma_node(d, a);
                assert(ss[a] == x);
            }
            if ss.contains(x) {
                let a = choose|a: int| 0 <= a < ss.len() && ss[a] == x;
                let id = x.0;
                if declared(ss[a]) {
                    lemma_lab_lookup(ss, id);
                    lemma_key_pos_from(keys_of(lab(ss)), id, 0);
                    let j = key_pos(keys_of(lab(ss)), id)->Some_0;
                    assert(all[j] == id);
                } else {
                    assert(in_transition(d, id));
                    lemma_flat_ends_contains(ts, id);
                    let q = choose|q: int| 0 <= q < flat_ends(ts).len() && flat_ends(ts)[q] == id;
                    assert(all[keys.len() + q] == id);
                }
                lemma_dedup_contains(all, id);
                let i = choose|i: int| 0 <= i < ids.len() && ids[i] == id;
                lemma_node(d, a);
                assert(out[i] == x);
            }
        }
    }
}

} // verus!
