//! Read-after-write law for sequence diagrams: the Mermaid text that the
//! writer prints for participants and messages reads back as the same
//! participants and messages.

use vstd::prelude::*;
use crate::readback::{
    lemma_find_absent, lemma_find_first, lemma_flat_front, lemma_flat_map, lemma_indent_trim, lemma_lines_front,
    lemma_nl_append, lemma_nl_one, nl_text, one_line,
};
use crate::sequence::{
    declare_part, empty_seq_st, ensure_part, fragment_kw, fragment_start, known, message_arrow_text, message_line,
    message_with, note_line, participant_decl, participant_rest, part_line, event_line, seq_parse, seq_run, seq_step,
    sequence_mermaid, timeline, tl_step, tl_upto, Ev, MessageArrow, MsgV, SeqSt, SeqV, Tl,
};
use crate::text::{
    find, is_ws, keep_content, kept_numbered, lines, occurs_at, strip_cr, strip_prefix, trim,
};

verus! {

/// The timeline of a diagram without notes and fragments is its messages.
proof fn lemma_tl_plain(d: SeqV, n: int)
    requires
        d.notes.len() == 0,
        d.fragments.len() == 0,
        0 <= n <= d.messages.len() + 1,
    ensures
        tl_upto(d, n).stack.len() == 0,
        tl_upto(d, n).emitted.len() == 0,
        tl_upto(d, n).events == Seq::new(
            (if n <= d.messages.len() {
                n
            } else {
                d.messages.len() as int
            }) as nat,
            |i: int| Ev::MsgAt(i),
        ),
    decreases n,
{
    if n > 0 {
        lemma_tl_plain(d, n - 1);
        let st = tl_upto(d, n - 1);
        let i = n - 1;
        assert(tl_upto(d, n) == tl_step(d, st, i));
        let s6 = if i < d.messages.len() {
            Tl { events: st.events.push(Ev::MsgAt(i)), ..st }
        } else {
            st
        };
        assert(tl_step(d, st, i) == s6);
        if i < d.messages.len() {
            assert(st.events.push(Ev::MsgAt(i)) =~= Seq::new(n as nat, |j: int| Ev::MsgAt(j)));
        }
    } else {
        assert(Seq::new(d.notes.len(), |k: int| false) =~= Seq::<bool>::empty());
        assert(Seq::new(0, |j: int| Ev::MsgAt(j)) =~= Seq::<Ev>::empty());
    }
}

proof fn lemma_timeline_plain(d: SeqV)
    requires
        d.notes.len() == 0,
        d.fragments.len() == 0,
    ensures
        timeline(d) == Seq::new(d.messages.len(), |i: int| Ev::MsgAt(i)),
{
    lemma_tl_plain(d, d.messages.len() as int + 1);
}

/// Lines of text ended each by a line break split back into those lines.
pub proof fn lemma_lines_nl(ls: Seq<Seq<char>>)
    requires
        forall|i: int| 0 <= i < ls.len() ==> one_line(#[trigger] ls[i]),
    ensures
        lines(nl_text(ls)) == ls,
    decreases ls.len(),
{
    if ls.len() == 0 {
        assert(nl_text(ls) == Seq::<char>::empty());
    } else {
        lemma_flat_front(ls, |l: Seq<char>| l + "\n"@);
        assert forall|i: int| 0 <= i < ls.drop_first().len() implies one_line(#[trigger] ls.drop_first()[i]) by {
            assert(ls.drop_first()[i] == ls[i + 1]);
        }
        lemma_lines_nl(ls.drop_first());
        assert(one_line(ls[0]));
        assert(nl_text(ls) == ls[0] + "\n"@ + nl_text(ls.drop_first()));
        lemma_lines_front(ls[0], nl_text(ls.drop_first()));
        assert(strip_cr(ls[0]) == ls[0]);
        assert(seq![ls[0]] + ls.drop_first() =~= ls);
    }
}

/// Kept lines of lines that each trim to a kept statement, numbered from one.
pub proof fn lemma_numbered_all(ls: Seq<Seq<char>>, ts: Seq<Seq<char>>)
    requires
        ls.len() == ts.len(),
        forall|i: int| 0 <= i < ls.len() ==> trim(#[trigger] ls[i]) == ts[i] && keep_content(ts[i]),
    ensures
        kept_numbered(ls, |l: Seq<char>| keep_content(l)) == Seq::new(ls.len(), |i: int| (i + 1, ts[i])),
    decreases ls.len(),
{
    if ls.len() > 0 {
        lemma_numbered_all(ls.drop_last(), ts.drop_last());
        assert(Seq::new(ls.drop_last().len(), |i: int| (i + 1, ts.drop_last()[i])).push((ls.len() as int, trim(ls.last())))
            =~= Seq::new(ls.len(), |i: int| (i + 1, ts[i])));
    } else {
        assert(Seq::new(ls.len(), |i: int| (i + 1, ts[i])) =~= Seq::<(int, Seq<char>)>::empty());
    }
}

/// A participant id or message end the reader takes as it stands: a
/// non-empty word with no whitespace, `-`, `>` or `:`, not starting with `%`
/// or with the word `else`.
pub open spec fn seq_id(id: Seq<char>) -> bool {
    &&& id.len() > 0
    &&& id[0] != '%'
    &&& !("else"@.is_prefix_of(id))
    &&& forall|j: int| 0 <= j < id.len() ==> !is_ws(#[trigger] id[j]) && id[j] != '-' && id[j] != '>' && id[j] != ':'
}

/// A label or message text the reader takes as it stands: no line break,
/// and no whitespace at either end.
pub open spec fn seq_text(t: Seq<char>) -> bool {
    &&& forall|j: int| 0 <= j < t.len() ==> #[trigger] t[j] != '\n'
    &&& t.len() == 0 || (!is_ws(t[0]) && !is_ws(t.last()))
}

pub open spec fn part_ok(p: (Seq<char>, Seq<char>)) -> bool {
    seq_id(p.0) && seq_text(p.1) && p.1.len() > 0
}

/// A solid message's text holds no dashed arrow, which the reader would try first.
pub open spec fn msg_ok(m: MsgV) -> bool {
    &&& seq_id(m.0)
    &&& seq_id(m.1)
    &&& seq_text(m.2)
    &&& m.3 == MessageArrow::Solid ==> forall|k: int| !occurs_at(m.2, "-->>"@, k)
}

/// A sequence diagram of participants and messages only, with distinct
/// participant ids, whose messages join declared participants.
pub open spec fn plain_sequence(d: SeqV) -> bool {
    &&& d.notes.len() == 0
    &&& d.fragments.len() == 0
    &&& forall|i: int| 0 <= i < d.parts.len() ==> part_ok(#[trigger] d.parts[i])
    &&& forall|a: int, b: int| 0 <= a < b < d.parts.len() ==> (#[trigger] d.parts[a]).0 != (#[trigger] d.parts[b]).0
    &&& forall|k: int| 0 <= k < d.messages.len() ==> msg_ok(#[trigger] d.messages[k]) && known(d.parts, d.messages[k].0)
        && known(d.parts, d.messages[k].1)
}

/// A participant declaration as the reader sees it, trimmed.
pub open spec fn part_stmt(p: (Seq<char>, Seq<char>)) -> Seq<char> {
    if p.1 != p.0 {
        "participant "@ + p.0 + " as "@ + p.1
    } else {
        "participant "@ + p.0
    }
}

/// A message line as the reader sees it, trimmed.
pub open spec fn msg_stmt(m: MsgV) -> Seq<char> {
    if m.2.len() == 0 {
        m.0 + message_arrow_text(m.3) + m.1 + ":"@
    } else {
        m.0 + message_arrow_text(m.3) + m.1 + ": "@ + m.2
    }
}

pub open spec fn raw_part(p: (Seq<char>, Seq<char>)) -> Seq<char> {
    "    "@ + part_stmt(p)
}

pub open spec fn raw_msg(m: MsgV) -> Seq<char> {
    "    "@ + m.0 + message_arrow_text(m.3) + m.1 + ": "@ + m.2
}

/// The lines the writer prints for a sequence diagram of participants and messages.
pub open spec fn seq_raw(d: SeqV) -> Seq<Seq<char>> {
    seq!["sequenceDiagram"@] + d.parts.map_values(|p: (Seq<char>, Seq<char>)| raw_part(p)) + d.messages.map_values(
        |m: MsgV| raw_msg(m),
    )
}

/// Those lines trimmed.
pub open spec fn seq_stmts(d: SeqV) -> Seq<Seq<char>> {
    seq!["sequenceDiagram"@] + d.parts.map_values(|p: (Seq<char>, Seq<char>)| part_stmt(p)) + d.messages.map_values(
        |m: MsgV| msg_stmt(m),
    )
}

proof fn lemma_indent_trim_space(core: Seq<char>)
    requires
        core.len() > 0,
        !is_ws(core[0]),
        !is_ws(core.last()),
    ensures
        trim("    "@ + core + " "@) == core,
{
    reveal_strlit("    ");
    reveal_strlit(" ");
    let line = "    "@ + (core + " "@);
    assert("    "@ + core + " "@ =~= line);
    let t = core + " "@;
    assert(line.drop_first().drop_first().drop_first().drop_first() =~= t);
    assert(crate::text::trim_start(line) == crate::text::trim_start(line.drop_first()));
    assert(crate::text::trim_start(line.drop_first()) == crate::text::trim_start(line.drop_first().drop_first()));
    assert(crate::text::trim_start(line.drop_first().drop_first()) == crate::text::trim_start(
        line.drop_first().drop_first().drop_first(),
    ));
    assert(crate::text::trim_start(line.drop_first().drop_first().drop_first()) == crate::text::trim_start(t));
    assert(crate::text::trim_start(t) == t);
    assert(t.drop_last() =~= core);
    assert(crate::text::trim_end(t) == crate::text::trim_end(core));
    assert(crate::text::trim_end(core) == core);
}

proof fn lemma_part_line(p: (Seq<char>, Seq<char>))
    requires
        part_ok(p),
    ensures
        part_line(p) == raw_part(p) + "\n"@,
        one_line(raw_part(p)),
        trim(raw_part(p)) == part_stmt(p),
        keep_content(part_stmt(p)),
        part_stmt(p)[0] == 'p',
{
    reveal_strlit("    participant ");
    reveal_strlit("    ");
    reveal_strlit("participant ");
    reveal_strlit(" as ");
    reveal_strlit("\n");
    reveal_strlit("%%");
    let t = part_stmt(p);
    assert(t[0] == 'p');
    assert(t.last() == (if p.1 != p.0 { p.1.last() } else { p.0.last() }));
    lemma_indent_trim(t);
    let r = raw_part(p);
    assert forall|j: int| 0 <= j < r.len() implies #[trigger] r[j] != '\n' by {
        if p.1 != p.0 {
            if 16 <= j < 16 + p.0.len() {
                assert(r[j] == p.0[j - 16]);
            } else if 16 + p.0.len() + 4 <= j {
                assert(r[j] == p.1[j - 20 - p.0.len()]);
            }
        } else {
            if 16 <= j {
                assert(r[j] == p.0[j - 16]);
            }
        }
    }
    assert(!("%%"@.is_prefix_of(t))) by {
        if "%%"@.is_prefix_of(t) {
            assert(t.subrange(0, 2)[0] == t[0]);
        }
    }
    if p.1 != p.0 {
        assert(part_line(p) =~= raw_part(p) + "\n"@);
    } else {
        assert(part_line(p) =~= raw_part(p) + "\n"@);
    }
}

proof fn lemma_msg_line(m: MsgV)
    requires
        msg_ok(m),
    ensures
        one_line(raw_msg(m)),
        trim(raw_msg(m)) == msg_stmt(m),
        keep_content(msg_stmt(m)),
{
    reveal_strlit("    ");
    reveal_strlit(": ");
    reveal_strlit(":");
    reveal_strlit(" ");
    reveal_strlit("%%");
    reveal_strlit("->>");
    reveal_strlit("-->>");
    let a = message_arrow_text(m.3);
    let t = msg_stmt(m);
    let r = raw_msg(m);
    assert(t[0] == m.0[0]);
    assert(!is_ws(m.0[0]));
    let q = m.0.len() + a.len() + m.1.len();
    assert forall|j: int| 0 <= j < r.len() implies #[trigger] r[j] != '\n' by {
        if 4 <= j < 4 + m.0.len() {
            assert(r[j] == m.0[j - 4]);
        } else if 4 + m.0.len() <= j < 4 + m.0.len() + a.len() {
            assert(r[j] == a[j - 4 - m.0.len()]);
        } else if 4 + m.0.len() + a.len() <= j < 4 + q {
            assert(r[j] == m.1[j - 4 - m.0.len() - a.len()]);
        } else if 4 + q + 2 <= j {
            assert(r[j] == m.2[j - 4 - q - 2]);
        }
    }
    if m.2.len() == 0 {
        assert(t.last() == ':');
        lemma_indent_trim_space(t);
        assert(r =~= "    "@ + t + " "@);
    } else {
        assert(t.last() == m.2.last());
        lemma_indent_trim(t);
        assert(r =~= "    "@ + t);
    }
    assert(!("%%"@.is_prefix_of(t))) by {
        if "%%"@.is_prefix_of(t) {
            assert(t.subrange(0, 2)[0] == t[0]);
        }
    }
}

proof fn lemma_seq_text(d: SeqV)
    requires
        plain_sequence(d),
    ensures
        kept_numbered(lines(sequence_mermaid(d)), |l: Seq<char>| keep_content(l)) == Seq::new(
            seq_raw(d).len(),
            |i: int| (i + 1, seq_stmts(d)[i]),
        ),
        seq_raw(d).len() == seq_stmts(d).len(),
{
    reveal_strlit("sequenceDiagram\n");
    reveal_strlit("sequenceDiagram");
    reveal_strlit("\n");
    reveal_strlit("%%");
    lemma_timeline_plain(d);
    let fp = |p: (Seq<char>, Seq<char>)| part_line(p);
    let gp = |p: (Seq<char>, Seq<char>)| raw_part(p);
    assert forall|k: int| 0 <= k < d.parts.len() implies fp(#[trigger] d.parts[k]) == gp(d.parts[k]) + "\n"@ by {
        lemma_part_line(d.parts[k]);
    }
    lemma_flat_map(d.parts, fp, gp);
    let tl = timeline(d);
    let fe = |e: Ev| event_line(d, e);
    let ge = |e: Ev|
        match e {
            Ev::MsgAt(k) => if 0 <= k < d.messages.len() {
                raw_msg(d.messages[k])
            } else {
                Seq::<char>::empty()
            },
            _ => Seq::<char>::empty(),
        };
    assert forall|k: int| 0 <= k < tl.len() implies fe(#[trigger] tl[k]) == ge(tl[k]) + "\n"@ by {
        assert(tl[k] == Ev::MsgAt(k));
        let m = d.messages[k];
        assert(event_line(d, Ev::MsgAt(k)) =~= raw_msg(m) + "\n"@);
    }
    lemma_flat_map(tl, fe, ge);
    let gm = |m: MsgV| raw_msg(m);
    assert(tl.map_values(ge) =~= d.messages.map_values(gm));
    let h = seq!["sequenceDiagram"@];
    let ps = d.parts.map_values(gp);
    let ms = d.messages.map_values(gm);
    lemma_nl_one(h[0]);
    lemma_nl_append(h + ps, ms);
    lemma_nl_append(h, ps);
    let raw = seq_raw(d);
    assert(raw =~= h + ps + ms);
    assert(sequence_mermaid(d) =~= nl_text(h) + nl_text(ps) + nl_text(ms));
    let st = seq_stmts(d);
    let np = d.parts.len() as int;
    assert forall|i: int| 0 <= i < raw.len() implies one_line(#[trigger] raw[i]) && trim(raw[i]) == st[i] && keep_content(
        st[i],
    ) by {
        if i == 0 {
            assert(raw[0] == "sequenceDiagram"@);
            assert(st[0] == "sequenceDiagram"@);
            crate::text::lemma_trim_fixed(raw[0]);
            assert(!("%%"@.is_prefix_of(st[0]))) by {
                if "%%"@.is_prefix_of(st[0]) {
                    assert(st[0].subrange(0, 2)[0] == st[0][0]);
                }
            }
        } else if i <= np {
            lemma_part_line(d.parts[i - 1]);
            assert(raw[i] == raw_part(d.parts[i - 1]));
            assert(st[i] == part_stmt(d.parts[i - 1]));
        } else {
            let k = i - 1 - np;
            assert(msg_ok(d.messages[k]));
            lemma_msg_line(d.messages[k]);
            assert(raw[i] == raw_msg(d.messages[k]));
            assert(st[i] == msg_stmt(d.messages[k]));
        }
    }
    lemma_lines_nl(raw);
    lemma_numbered_all(raw, st);
}

proof fn lemma_trim_word(w: Seq<char>)
    requires
        seq_text(w),
    ensures
        trim(w) == w,
{
    crate::text::lemma_trim_fixed(w);
}

proof fn lemma_trim_id(w: Seq<char>)
    requires
        seq_id(w),
    ensures
        trim(w) == w,
{
    assert(!is_ws(w[0]));
    assert(!is_ws(w[w.len() - 1]));
    crate::text::lemma_trim_fixed(w);
}

proof fn lemma_part_step(st: SeqSt, n: int, p: (Seq<char>, Seq<char>))
    requires
        part_ok(p),
    ensures
        seq_step(st, n, part_stmt(p)) == Ok::<SeqSt, (Seq<char>, Option<int>)>(
            SeqSt { d: SeqV { parts: declare_part(st.d.parts, p.0, p.1), ..st.d }, ..st },
        ),
{
    reveal_strlit("participant ");
    reveal_strlit(" as ");
    let t = part_stmt(p);
    let rest = if p.1 != p.0 {
        p.0 + " as "@ + p.1
    } else {
        p.0
    };
    assert(t =~= "participant "@ + rest);
    assert(t.subrange(0, 12) =~= "participant "@);
    assert(t.subrange(12, t.len() as int) =~= rest);
    assert(strip_prefix(t, "participant "@) == Some(rest));
    assert(participant_rest(t) == Some(rest));
    lemma_trim_id(p.0);
    let q = p.0.len() as int;
    assert forall|j: int| 0 <= j < q implies !occurs_at(rest, " as "@, j) by {
        if occurs_at(rest, " as "@, j) {
            assert(rest.subrange(j, j + 4)[0] == rest[j]);
            assert(rest[j] == p.0[j]);
        }
    }
    if p.1 != p.0 {
        assert(occurs_at(rest, " as "@, q)) by {
            assert(rest.subrange(q, q + 4) =~= " as "@);
        }
        lemma_find_first(rest, " as "@, q);
        assert(rest.subrange(0, q) =~= p.0);
        assert(rest.subrange(q + 4, rest.len() as int) =~= p.1);
        lemma_trim_word(p.1);
    } else {
        assert forall|j: int| 0 <= j implies !occurs_at(rest, " as "@, j) by {
            if occurs_at(rest, " as "@, j) {
                assert(rest.subrange(j, j + 4)[0] == rest[j]);
            }
        }
        lemma_find_absent(rest, " as "@);
    }
    assert(participant_decl(rest) == (p.0, p.1));
}

/// A keyword holding a space, and no dash, is not where a message line
/// starts.
proof fn lemma_no_spaced_kw(t: Seq<char>, q: int, kw: Seq<char>, w: int)
    requires
        0 <= q < t.len(),
        t[q] == '-',
        forall|j: int| 0 <= j < q ==> !is_ws(#[trigger] t[j]),
        forall|j: int| 0 <= j < kw.len() ==> #[trigger] kw[j] != '-',
        0 <= w < kw.len(),
        is_ws(kw[w]),
    ensures
        strip_prefix(t, kw) is None,
{
    if kw.is_prefix_of(t) {
        if kw.len() > q {
            assert(t.subrange(0, kw.len() as int)[q] == t[q]);
        } else {
            assert(t.subrange(0, kw.len() as int)[w] == t[w]);
        }
    }
}

proof fn lemma_no_frag_kw(t: Seq<char>, q: int, kw: Seq<char>)
    requires
        0 <= q < t.len(),
        t[q] == '-',
        forall|j: int| 0 <= j < q ==> !is_ws(#[trigger] t[j]),
        forall|j: int| 0 <= j < kw.len() ==> #[trigger] kw[j] != '-',
    ensures
        fragment_kw(t, kw) is None,
{
    if t == kw {
        assert(kw[q] == t[q]);
    }
    if kw.is_prefix_of(t) {
        if kw.len() > q {
            assert(t.subrange(0, kw.len() as int)[q] == t[q]);
        } else {
            let rest = t.subrange(kw.len() as int, t.len() as int);
            assert(rest[0] == t[kw.len() as int]);
            assert(is_ws(' '));
        }
    }
}

/// A solid message's line holds no dashed arrow.
proof fn lemma_solid_no_dashed(m: MsgV)
    requires
        msg_ok(m),
        m.3 == MessageArrow::Solid,
    ensures
        forall|j: int| !occurs_at(msg_stmt(m), "-->>"@, j),
{
    reveal_strlit("->>");
    reveal_strlit("-->>");
    reveal_strlit(": ");
    reveal_strlit(":");
    let t = msg_stmt(m);
    let q = m.0.len() as int;
    let b = m.1.len() as int;
    let o = q + 3 + b + 2;
    assert forall|j: int| !occurs_at(t, "-->>"@, j) by {
        if occurs_at(t, "-->>"@, j) {
            let w = t.subrange(j, j + 4);
            assert(w[0] == t[j] && w[1] == t[j + 1] && w[2] == t[j + 2]);
            assert(t[j] == '-' && t[j + 1] == '-' && t[j + 2] == '>');
            if j < q {
                assert(t[j] == m.0[j]);
            } else if j == q {
                assert(t[q + 1] == '>');
            } else if j < q + 3 {
                assert(t[j] == '>');
            } else if j < q + 3 + b {
                assert(t[j] == m.1[j - q - 3]);
            } else if j == q + 3 + b {
                assert(t[j] == ':');
            } else if j == q + 4 + b {
                assert(t[j] == ' ');
            } else {
                assert(m.2.subrange(j - o, j - o + 4) =~= w);
                assert(occurs_at(m.2, "-->>"@, j - o));
            }
        }
    }
}

/// The message line splits at its own arrow and reads back as the message.
proof fn lemma_msg_with(m: MsgV)
    requires
        msg_ok(m),
        find(msg_stmt(m), message_arrow_text(m.3)) == Some(m.0.len() as int),
    ensures
        message_with(msg_stmt(m), message_arrow_text(m.3), m.3) == Some(Some(m)),
{
    reveal_strlit("->>");
    reveal_strlit("-->>");
    reveal_strlit(": ");
    reveal_strlit(":");
    reveal_strlit(" ");
    let t = msg_stmt(m);
    let a = message_arrow_text(m.3);
    let q = m.0.len() as int;
    let b = m.1.len() as int;
    let right = t.subrange(q + a.len(), t.len() as int);
    let rest2 = if m.2.len() == 0 {
        Seq::<char>::empty()
    } else {
        " "@ + m.2
    };
    assert(t.subrange(0, q) =~= m.0);
    assert(right =~= m.1 + ":"@ + rest2);
    assert forall|j: int| 0 <= j < b implies !occurs_at(right, ":"@, j) by {
        if occurs_at(right, ":"@, j) {
            assert(right.subrange(j, j + 1)[0] == right[j]);
            assert(right[j] == m.1[j]);
        }
    }
    assert(occurs_at(right, ":"@, b)) by {
        assert(right.subrange(b, b + 1) =~= ":"@);
    }
    lemma_find_first(right, ":"@, b);
    assert(right.subrange(0, b) =~= m.1);
    assert(right.subrange(b + 1, right.len() as int) =~= rest2);
    lemma_trim_id(m.0);
    lemma_trim_id(m.1);
    if m.2.len() == 0 {
        assert(trim(rest2) == rest2);
    } else {
        lemma_trim_word(m.2);
        assert(rest2.drop_first() =~= m.2);
        assert(crate::text::trim_start(rest2) == crate::text::trim_start(m.2));
        assert(crate::text::trim_start(m.2) == m.2);
    }
}

proof fn lemma_msg_step(st: SeqSt, n: int, m: MsgV)
    requires
        msg_ok(m),
    ensures
        seq_step(st, n, msg_stmt(m)) == Ok::<SeqSt, (Seq<char>, Option<int>)>(
            SeqSt {
                d: SeqV {
                    parts: ensure_part(ensure_part(st.d.parts, m.0), m.1),
                    messages: st.d.messages.push(m),
                    ..st.d
                },
                ..st
            },
        ),
{
    reveal_strlit("participant ");
    reveal_strlit("actor ");
    reveal_strlit("Note ");
    reveal_strlit("loop");
    reveal_strlit("alt");
    reveal_strlit("opt");
    reveal_strlit("else");
    reveal_strlit("end");
    reveal_strlit("->>");
    reveal_strlit("-->>");
    let t = msg_stmt(m);
    let q = m.0.len() as int;
    assert(t[q] == '-');
    assert forall|j: int| 0 <= j < q implies !is_ws(#[trigger] t[j]) && t[j] != '-' by {
        assert(t[j] == m.0[j]);
    }
    lemma_no_spaced_kw(t, q, "participant "@, 11);
    lemma_no_spaced_kw(t, q, "actor "@, 5);
    assert(participant_rest(t) is None);
    lemma_no_frag_kw(t, q, "loop"@);
    lemma_no_frag_kw(t, q, "alt"@);
    lemma_no_frag_kw(t, q, "opt"@);
    assert(fragment_start(t) is None);
    assert(strip_prefix(t, "else"@) is None) by {
        if "else"@.is_prefix_of(t) {
            if q < 4 {
                assert(t.subrange(0, 4)[q] == t[q]);
            } else {
                assert(m.0.subrange(0, 4) =~= t.subrange(0, 4));
            }
        }
    }
    assert(t != "end"@) by {
        if t == "end"@ {
            assert("end"@[q] == t[q]);
        }
    }
    lemma_no_spaced_kw(t, q, "Note "@, 4);
    assert(note_line(t, st.d.messages.len() as int, st.open.len() as int) is None);
    assert forall|j: int| 0 <= j < q implies !occurs_at(t, message_arrow_text(m.3), j) by {
        if occurs_at(t, message_arrow_text(m.3), j) {
            assert(t.subrange(j, j + message_arrow_text(m.3).len())[0] == t[j]);
        }
    }
    let a = message_arrow_text(m.3);
    assert(occurs_at(t, a, q)) by {
        assert(t.subrange(q, q + a.len()) =~= a);
    }
    lemma_find_first(t, a, q);
    lemma_msg_with(m);
    if m.3 == MessageArrow::Solid {
        lemma_solid_no_dashed(m);
        lemma_find_absent(t, "-->>"@);
        assert(message_with(t, "-->>"@, MessageArrow::Dashed) is None);
    }
    assert(message_line(t) == Some(m));
}

/// Reader state after the first `i` lines (header included).
pub open spec fn seq_state(d: SeqV, i: int) -> SeqSt {
    let np = d.parts.len() as int;
    if i <= np + 1 {
        SeqSt {
            d: SeqV { parts: d.parts.take(i - 1), messages: Seq::empty(), ..d },
            open: Seq::empty(),
        }
    } else {
        SeqSt {
            d: SeqV { messages: d.messages.take(i - 1 - np), ..d },
            open: Seq::empty(),
        }
    }
}

#[verifier::rlimit(40)]
proof fn lemma_seq_run(d: SeqV, i: int)
    requires
        plain_sequence(d),
        1 <= i <= seq_stmts(d).len(),
    ensures
        seq_run(
            Seq::new(seq_stmts(d).len(), |j: int| (j + 1, seq_stmts(d)[j])),
            i,
            seq_state(d, i),
        ) == Ok::<SeqSt, (Seq<char>, Option<int>)>(seq_state(d, seq_stmts(d).len() as int)),
    decreases seq_stmts(d).len() - i,
{
    let t = seq_stmts(d);
    let ks = Seq::new(t.len(), |j: int| (j + 1, t[j]));
    let np = d.parts.len() as int;
    if i < t.len() {
        let s = seq_state(d, i);
        if i <= np {
            let p = d.parts[i - 1];
            assert(t[i] == part_stmt(p));
            lemma_part_step(s, i + 1, p);
            assert(!known(d.parts.take(i - 1), p.0)) by {
                if known(d.parts.take(i - 1), p.0) {
                    let k = choose|k: int| 0 <= k < d.parts.take(i - 1).len() && (#[trigger] d.parts.take(i - 1)[k]).0 == p.0;
                    assert(d.parts[k].0 == d.parts[i - 1].0);
                }
            }
            assert(declare_part(d.parts.take(i - 1), p.0, p.1) =~= d.parts.take(i));
            assert(seq_step(s, i + 1, t[i]) == Ok::<SeqSt, (Seq<char>, Option<int>)>(seq_state(d, i + 1)));
        } else {
            let k = i - 1 - np;
            let m = d.messages[k];
            assert(msg_ok(m));
            assert(t[i] == msg_stmt(m));
            lemma_msg_step(s, i + 1, m);
            assert(s.d.parts =~= d.parts);
            assert(ensure_part(d.parts, m.0) == d.parts);
            assert(ensure_part(d.parts, m.1) == d.parts);
            assert(s.d.messages.push(m) =~= d.messages.take(k + 1));
            assert(seq_state(d, i + 1).d.messages == d.messages.take(k + 1));
            assert(seq_step(s, i + 1, t[i]) == Ok::<SeqSt, (Seq<char>, Option<int>)>(seq_state(d, i + 1)));
        }
        assert(ks[i] == (i + 1, t[i]));
        lemma_seq_run(d, i + 1);
    }
}

/// The Mermaid text that the writer prints for a sequence diagram of
/// participants and messages reads back as that diagram: its participants
/// (id, label) and its messages (ends, text, arrow) in order, and nothing
/// else, where ids are distinct words with no whitespace, `-`, `>` or `:`
/// (not starting with `%` or with `else`), labels and texts are single
/// lines with no whitespace at either end, labels are not empty, the text
/// of a solid message holds no `-->>`, and every message joins declared
/// participants.
pub proof fn law_sequence_mermaid_reads_back(d: SeqV)
    requires
        plain_sequence(d),
    ensures
        seq_parse(sequence_mermaid(d)) == Ok::<SeqV, (Seq<char>, Option<int>)>(d),
{
    reveal_strlit("sequenceDiagram");
    lemma_seq_text(d);
    let t = seq_stmts(d);
    let ks = Seq::new(t.len(), |j: int| (j + 1, t[j]));
    assert(ks[0].1 == "sequenceDiagram"@);
    assert("sequenceDiagram"@.is_prefix_of(ks[0].1)) by {
        assert(ks[0].1.subrange(0, 15) =~= "sequenceDiagram"@);
    }
    assert(d.parts.take(0) =~= Seq::<(Seq<char>, Seq<char>)>::empty());
    assert(seq_state(d, 1) =~= empty_seq_st()) by {
        assert(d.notes =~= Seq::<crate::sequence::NoteV>::empty());
        assert(d.fragments =~= Seq::<crate::sequence::FragV>::empty());
    }
    lemma_seq_run(d, 1);
    let n = t.len() as int;
    assert(n == 1 + d.parts.len() + d.messages.len());
    let fin = seq_state(d, n);
    if d.messages.len() > 0 {
        assert(d.messages.take(n - 1 - d.parts.len()) =~= d.messages);
        assert(fin.d =~= d);
    } else {
        assert(d.parts.take(n - 1) =~= d.parts);
        assert(d.messages =~= Seq::<MsgV>::empty());
        assert(fin.d =~= d);
    }
}

} // verus!
