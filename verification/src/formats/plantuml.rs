//! PlantUML text (sequence and activity subsets).

use vstd::prelude::*;
use crate::text::{str_eq,
    ascii_lower, chars_of, decimal, find, join, join_strings, lines, lines_of, push_decimal, seqs, split_char,
    split_char_slice, split_once, split_once_exec, starts_with, strip_prefix, strip_prefix_exec, trim, trim_slice,
    trim_start, trim_start_index, slice_to_vec, string_of, string_from, find_slice, views, lemma_find_from,
    flat, lemma_flat_step, lemma_flat_all,
};
use crate::formats::dot::{replace_all, replace_all_exec};
use crate::ir::{Diagram, Document, IrError, CURRENT_VERSION, kind_name, kind_of};
use crate::diagram::{Diagram as FcDiagram, Edge, EdgeStyle, Node, NodeShape, node_is};
use crate::text::first;
use crate::class::{
    add_member, class_v, classes_v, ensure_class, relation_line, rel_v, set_stereotype, split_id_stereotype,
    trim_end_braces, ClassDiagramV, ClassV, RelV, ClassDiagram, Relation, Class, add_member_exec, ensure_class_exec,
    relation_line_exec, set_stereotype_exec, split_id_stereotype_exec, trim_end_braces_exec, cd_v,
};
use crate::sequence::{
    declare_part, ensure_all, ensure_part, message_with, note_placement, participant_rest, MessageArrow,
    NotePlacement, NoteV, SeqV, Message, Note, SequenceDiagram, seq_v, msg_v, note_v, ensure_part_exec,
    declare_part_exec, ensure_all_exec, message_with_exec, note_placement_exec, participant_rest_exec,
};

verus! {

/// The first line that is neither blank nor a `'` comment starts with `@startuml`.
pub open spec fn plantuml_like(src: Seq<char>) -> bool {
    let ls = lines(src);
    exists|i: int| 0 <= i < ls.len() && {
        let t = trim(#[trigger] ls[i]);
        t.len() > 0 && t[0] != '\'' && "@startuml"@.is_prefix_of(t) && forall|j: int| 0 <= j < i ==> {
            let u = trim(#[trigger] ls[j]);
            u.len() == 0 || u[0] == '\''
        }
    }
}

/// Whether source is PlantUML.
pub fn is_plantuml(source: &str) -> (b: bool)
    ensures
        b == plantuml_like(source@),
{
    let cs = chars_of(source);
    let ls = lines_of(cs.as_slice());
    let ghost lv = seqs(ls@);
    let start = chars_of("@startuml");
    let mut i: usize = 0;
    while i < ls.len()
        invariant
            i <= ls@.len(),
            lv == seqs(ls@),
            lv == lines(source@),
            start@ == "@startuml"@,
            forall|j: int| 0 <= j < i ==> {
                let u = trim(#[trigger] lv[j]);
                u.len() == 0 || u[0] == '\''
            },
        decreases ls@.len() - i,
    {
        assert(lv[i as int] == ls@[i as int]@);
        let t = trim_slice(ls[i].as_slice());
        if t.len() > 0 && t[0] != '\'' {
            let r = starts_with(t, start.as_slice());
            proof {
                if !r && plantuml_like(source@) {
                    let k = choose|k: int| 0 <= k < lv.len() && {
                        let t2 = trim(#[trigger] lv[k]);
                        t2.len() > 0 && t2[0] != '\'' && "@startuml"@.is_prefix_of(t2) && forall|j: int| 0 <= j < k ==> {
                            let u = trim(#[trigger] lv[j]);
                            u.len() == 0 || u[0] == '\''
                        }
                    };
                    if k > i {
                        assert(trim(lv[i as int]) == t@);
                    }
                }
            }
            return r;
        }
        i = i + 1;
    }
    proof {
        if plantuml_like(source@) {
            let k = choose|k: int| 0 <= k < lv.len() && {
                let t2 = trim(#[trigger] lv[k]);
                t2.len() > 0 && t2[0] != '\'' && "@startuml"@.is_prefix_of(t2) && forall|j: int| 0 <= j < k ==> {
                    let u = trim(#[trigger] lv[j]);
                    u.len() == 0 || u[0] == '\''
                }
            };
            assert(trim(lv[k]).len() == 0 || trim(lv[k])[0] == '\'');
        }
    }
    false
}


// ---------------------------------------------------------------- lines

/// Every line of the source, trimmed (blank ones included).
pub open spec fn all_lines(src: Seq<char>) -> Seq<Seq<char>> {
    let ls = lines(src);
    Seq::new(ls.len(), |i: int| trim(ls[i]))
}

/// Lines every PlantUML reader passes over.
pub open spec fn skip_common(l: Seq<char>) -> bool {
    l.len() == 0 || "@"@.is_prefix_of(l) || "'"@.is_prefix_of(l) || "skinparam"@.is_prefix_of(l)
        || "title "@.is_prefix_of(l)
}

/// Lines the sequence reader passes over.
pub open spec fn skip_seq_line(l: Seq<char>) -> bool {
    skip_common(l) || "autonumber"@.is_prefix_of(l)
}

/// `"text"` or `'text'` (at least the two quotes).
pub open spec fn quoted(a: Seq<char>) -> bool {
    a.len() >= 2 && ((a[0] == '"' && a.last() == '"') || (a[0] == '\'' && a.last() == '\''))
}

pub open spec fn strip_quotes(a: Seq<char>) -> Seq<char> {
    if quoted(a) {
        a.subrange(1, a.len() - 1)
    } else {
        a
    }
}

/// Comma-separated note actors: trimmed, unquoted, non-empty.
pub open spec fn actor_list(parts: Seq<Seq<char>>) -> Seq<Seq<char>>
    decreases parts.len(),
{
    if parts.len() == 0 {
        Seq::empty()
    } else {
        let prev = actor_list(parts.drop_last());
        let a = strip_quotes(trim(parts.last()));
        if a.len() == 0 {
            prev
        } else {
            prev.push(a)
        }
    }
}

pub open spec fn note_actors(s: Seq<char>) -> Seq<Seq<char>> {
    actor_list(split_char(s, ','))
}

/// A quoted label without its quotes, with `\\"` and `\\n` escapes resolved.
pub open spec fn unquote(s: Seq<char>) -> Seq<char> {
    let t = trim(s);
    if quoted(t) {
        replace_all(replace_all(t.subrange(1, t.len() - 1), "\\\""@, "\""@), "\\n"@, "\n"@)
    } else {
        t
    }
}

pub open spec fn remove_spaces(s: Seq<char>) -> Seq<char>
    decreases s.len(),
{
    if s.len() == 0 {
        s
    } else if s.last() == ' ' {
        remove_spaces(s.drop_last())
    } else {
        remove_spaces(s.drop_last()).push(s.last())
    }
}

/// `participant` declaration: `(id, label)`.
pub open spec fn puml_participant(rest: Seq<char>) -> (Seq<char>, Seq<char>) {
    let r = trim(rest);
    match find(r, " as "@) {
        Some(idx) => {
            let left = trim(r.subrange(0, idx));
            let right = trim(r.subrange(idx + 4, r.len() as int));
            if left.len() > 0 && left[0] == '"' {
                (right, unquote(left))
            } else {
                (left, right)
            }
        },
        None => if r.len() > 0 && r[0] == '"' {
            let label = unquote(r);
            (remove_spaces(label), label)
        } else {
            (r, r)
        },
    }
}

/// A message line; ` : ` is read as `:`, and the longer arrows are tried first.
pub open spec fn puml_message(text: Seq<char>) -> Option<(Seq<char>, Seq<char>, Seq<char>, MessageArrow)> {
    let t = replace_all(text, " : "@, ":"@);
    match message_with(t, "-->>"@, MessageArrow::Dashed) {
        Some(r) => r,
        None => match message_with(t, "->>"@, MessageArrow::Solid) {
            Some(r) => r,
            None => match message_with(t, "-->"@, MessageArrow::Dashed) {
                Some(r) => r,
                None => match message_with(t, "->"@, MessageArrow::Solid) {
                    Some(r) => r,
                    None => None,
                },
            },
        },
    }
}

/// `end note`, in any ASCII case.
pub open spec fn is_end_note(t: Seq<char>) -> bool {
    t.len() == 8 && forall|k: int| 0 <= k < 8 ==> ascii_lower(#[trigger] t[k]) == "end note"@[k]
}

/// The first `end note` line at or after `j`.
pub open spec fn note_end(ls: Seq<Seq<char>>, j: int) -> Option<int>
    decreases ls.len() - j,
{
    if j < 0 || j >= ls.len() {
        None
    } else if is_end_note(ls[j]) {
        Some(j)
    } else {
        note_end(ls, j + 1)
    }
}

/// Body lines `a..b` of a note: not blank, not comments.
pub open spec fn note_body(ls: Seq<Seq<char>>, a: int, b: int) -> Seq<Seq<char>>
    decreases b - a,
{
    if b <= a {
        Seq::empty()
    } else {
        let prev = note_body(ls, a, b - 1);
        let t = ls[b - 1];
        if t.len() > 0 && !("'"@.is_prefix_of(t)) {
            prev.push(t)
        } else {
            prev
        }
    }
}

pub open spec fn seq_line_msg(n: int, what: Seq<char>) -> Seq<char> {
    "PlantUML sequence line "@ + decimal(n as nat) + ": "@ + what
}

/// A note starting at line `start`: the note and the index after it, nothing
/// when the line is no note, or the error message.
pub open spec fn puml_note(ls: Seq<Seq<char>>, start: int, before: int) -> Result<Option<(NoteV, int)>, Seq<char>> {
    let n = start + 1;
    let line = ls[start];
    let r0 = match strip_prefix(line, "note "@) {
        Some(r) => Some(r),
        None => strip_prefix(line, "Note "@),
    };
    match r0 {
        None => Ok(None),
        Some(r0) => match note_placement(trim_start(r0)) {
            None => Err(seq_line_msg(n, "expected note left/right of or note over"@)),
            Some((pl, rest)) => match split_once(rest, ":"@) {
                Some((ap, text)) => {
                    let actors = note_actors(ap);
                    if actors.len() == 0 {
                        Err(seq_line_msg(n, "note missing actor"@))
                    } else {
                        Ok(Some(((pl, actors, trim(text), before, 0), start + 1)))
                    }
                },
                None => {
                    let actors = note_actors(rest);
                    if actors.len() == 0 {
                        Err(seq_line_msg(n, "note missing actor"@))
                    } else {
                        match note_end(ls, start + 1) {
                            Some(k) => Ok(Some(((pl, actors, join(note_body(ls, start + 1, k), " "@), before, 0), k + 1))),
                            None => Err(seq_line_msg(n, "unclosed note (expected end note)"@)),
                        }
                    }
                },
            },
        },
    }
}

pub proof fn lemma_note_end_after(ls: Seq<Seq<char>>, j: int)
    ensures
        note_end(ls, j) matches Some(k) ==> j <= k < ls.len(),
    decreases ls.len() - j,
{
    if 0 <= j < ls.len() && !is_end_note(ls[j]) {
        lemma_note_end_after(ls, j + 1);
    }
}

/// One line of a sequence diagram: the diagram so far and the next line index,
/// or the error message.
pub open spec fn puml_seq_step(ls: Seq<Seq<char>>, i: int, d: SeqV) -> Result<(SeqV, int), Seq<char>> {
    let line = ls[i];
    let m = d.messages.len() as int;
    if skip_seq_line(line) {
        Ok((d, i + 1))
    } else if let Some(rest) = participant_rest(line) {
        let (id, label) = puml_participant(rest);
        Ok((SeqV { parts: declare_part(d.parts, id, label), ..d }, i + 1))
    } else {
        match puml_note(ls, i, m) {
            Err(e) => Err(e),
            Ok(Some((note, next))) => Ok((SeqV { parts: ensure_all(d.parts, note.1), notes: d.notes.push(note), ..d }, next)),
            Ok(None) => match puml_message(line) {
                Some(msg) => Ok((SeqV { parts: ensure_part(ensure_part(d.parts, msg.0), msg.1), messages: d.messages.push(msg), ..d }, i + 1)),
                None => Err(seq_line_msg(i + 1, "unrecognized: "@ + line)),
            },
        }
    }
}

pub proof fn lemma_seq_step_advances(ls: Seq<Seq<char>>, i: int, d: SeqV)
    requires
        0 <= i < ls.len(),
    ensures
        puml_seq_step(ls, i, d) matches Ok((_, next)) ==> i < next <= ls.len(),
{
    lemma_note_end_after(ls, i + 1);
}

/// Lines `i..` of a sequence diagram.
pub open spec fn puml_seq_run(ls: Seq<Seq<char>>, i: int, d: SeqV) -> Result<SeqV, Seq<char>>
    decreases ls.len() - i,
{
    if i < 0 || i >= ls.len() {
        Ok(d)
    } else {
        match puml_seq_step(ls, i, d) {
            Ok((d2, next)) => {
                proof { lemma_seq_step_advances(ls, i, d); }
                puml_seq_run(ls, next, d2)
            },
            Err(e) => Err(e),
        }
    }
}

pub proof fn lemma_seq_run_step(ls: Seq<Seq<char>>, i: int, d: SeqV)
    requires
        0 <= i < ls.len(),
    ensures
        match puml_seq_step(ls, i, d) {
            Ok((d2, next)) => puml_seq_run(ls, i, d) == puml_seq_run(ls, next, d2),
            Err(m) => puml_seq_run(ls, i, d) == Err::<SeqV, Seq<char>>(m),
        },
{
}

/// What reading a PlantUML sequence diagram gives.
pub open spec fn puml_sequence(src: Seq<char>) -> Result<SeqV, Seq<char>> {
    let empty = SeqV { parts: Seq::empty(), messages: Seq::empty(), notes: Seq::empty(), fragments: Seq::empty() };
    match puml_seq_run(all_lines(src), 0, empty) {
        Ok(d) => if d.messages.len() == 0 && d.parts.len() == 0 {
            Err("PlantUML sequence: no participants or messages"@)
        } else {
            Ok(d)
        },
        Err(e) => Err(e),
    }
}


// ---------------------------------------------------------------- sequence (executable)

/// Every line of the source, trimmed.
fn trimmed_lines(source: &str) -> (r: Vec<Vec<char>>)
    ensures
        seqs(r@) == all_lines(source@),
{
    let cs = chars_of(source);
    let ls = lines_of(cs.as_slice());
    let ghost lv = seqs(ls@);
    let mut r: Vec<Vec<char>> = Vec::new();
    let mut i: usize = 0;
    while i < ls.len()
        invariant
            i <= ls@.len(),
            lv == seqs(ls@),
            lv == lines(source@),
            r@.len() == i,
            forall|k: int| 0 <= k < i ==> (#[trigger] r@[k])@ == trim(lv[k]),
        decreases ls@.len() - i,
    {
        assert(lv[i as int] == ls@[i as int]@);
        r.push(slice_to_vec(trim_slice(ls[i].as_slice())));
        i = i + 1;
    }
    assert(seqs(r@) =~= all_lines(source@));
    r
}

fn quoted_exec(a: &[char]) -> (b: bool)
    ensures
        b == quoted(a@),
{
    let n = a.len();
    n >= 2 && ((a[0] == '"' && a[n - 1] == '"') || (a[0] == '\'' && a[n - 1] == '\''))
}

fn strip_quotes_exec(a: &[char]) -> (r: Vec<char>)
    ensures
        r@ == strip_quotes(a@),
{
    if quoted_exec(a) {
        slice_to_vec(&a[1..a.len() - 1])
    } else {
        slice_to_vec(a)
    }
}

fn note_actors_exec(s: &[char]) -> (r: Vec<String>)
    ensures
        views(r@) == note_actors(s@),
{
    let parts = split_char_slice(s, ',');
    let ghost pv = seqs(parts@);
    let mut r: Vec<String> = Vec::new();
    let mut i: usize = 0;
    assert(pv.take(0) =~= Seq::<Seq<char>>::empty());
    while i < parts.len()
        invariant
            i <= parts@.len(),
            pv == seqs(parts@),
            views(r@) == actor_list(pv.take(i as int)),
        decreases parts@.len() - i,
    {
        assert(pv.take(i + 1).drop_last() =~= pv.take(i as int));
        assert(pv[i as int] == parts@[i as int]@);
        let a = strip_quotes_exec(trim_slice(parts[i].as_slice()));
        if a.len() > 0 {
            let ghost before = views(r@);
            r.push(string_of(a.as_slice()));
            assert(views(r@) =~= before.push(a@));
        }
        i = i + 1;
    }
    assert(pv.take(parts@.len() as int) =~= pv);
    r
}

fn unquote_exec(s: &[char]) -> (r: Vec<char>)
    ensures
        r@ == unquote(s@),
{
    let t = trim_slice(s);
    if quoted_exec(t) {
        let inner = &t[1..t.len() - 1];
        let a = replace_all_exec(inner, "\\\"", "\"");
        replace_all_exec(a.as_slice(), "\\n", "\n")
    } else {
        slice_to_vec(t)
    }
}

fn remove_spaces_exec(s: &[char]) -> (r: Vec<char>)
    ensures
        r@ == remove_spaces(s@),
{
    let mut r: Vec<char> = Vec::new();
    let mut i: usize = 0;
    assert(s@.take(0) =~= Seq::<char>::empty());
    while i < s.len()
        invariant
            i <= s@.len(),
            r@ == remove_spaces(s@.take(i as int)),
        decreases s@.len() - i,
    {
        assert(s@.take(i + 1).drop_last() =~= s@.take(i as int));
        if s[i] != ' ' {
            r.push(s[i]);
        }
        i = i + 1;
    }
    assert(s@.take(s@.len() as int) =~= s@);
    r
}

fn puml_participant_exec(rest: &[char]) -> (r: (Vec<char>, Vec<char>))
    ensures
        (r.0@, r.1@) == puml_participant(rest@),
{
    let r = trim_slice(rest);
    let n = r.len();
    let sep = chars_of(" as ");
    match find_slice(r, sep.as_slice()) {
        Some(idx) => {
            proof {
                reveal_strlit(" as ");
                lemma_find_from(r@, " as "@, 0);
            }
            let left = trim_slice(&r[0..idx]);
            let right = trim_slice(&r[idx + 4..n]);
            if left.len() > 0 && left[0] == '"' {
                (slice_to_vec(right), unquote_exec(left))
            } else {
                (slice_to_vec(left), slice_to_vec(right))
            }
        },
        None => {
            if n > 0 && r[0] == '"' {
                let label = unquote_exec(r);
                (remove_spaces_exec(label.as_slice()), label)
            } else {
                (slice_to_vec(r), slice_to_vec(r))
            }
        },
    }
}

fn puml_message_exec(text: &[char]) -> (r: Option<Message>)
    ensures
        match puml_message(text@) {
            Some(m) => r matches Some(x) && msg_v(x) == m,
            None => r is None,
        },
{
    let t = replace_all_exec(text, " : ", ":");
    let ts = t.as_slice();
    match message_with_exec(ts, "-->>", MessageArrow::Dashed) {
        Some(r) => r,
        None => match message_with_exec(ts, "->>", MessageArrow::Solid) {
            Some(r) => r,
            None => match message_with_exec(ts, "-->", MessageArrow::Dashed) {
                Some(r) => r,
                None => match message_with_exec(ts, "->", MessageArrow::Solid) {
                    Some(r) => r,
                    None => None,
                },
            },
        },
    }
}

fn lower_char(c: char) -> (r: char)
    ensures
        r == ascii_lower(c),
{
    if 'A' <= c && c <= 'Z' {
        ((c as u8) + 32) as char
    } else {
        c
    }
}

fn is_end_note_exec(t: &[char]) -> (b: bool)
    ensures
        b == is_end_note(t@),
{
    let pat = chars_of("end note");
    proof { reveal_strlit("end note"); }
    if t.len() != 8 {
        return false;
    }
    let mut k: usize = 0;
    while k < 8
        invariant
            k <= 8,
            t@.len() == 8,
            pat@ == "end note"@,
            pat@.len() == 8,
            forall|j: int| 0 <= j < k ==> ascii_lower(#[trigger] t@[j]) == "end note"@[j],
        decreases 8 - k,
    {
        if lower_char(t[k]) != pat[k] {
            return false;
        }
        k = k + 1;
    }
    true
}

fn line_err(kind: &str, n: usize, what: &[char]) -> (e: IrError)
    ensures
        e.message@ == "PlantUML "@ + kind@ + " line "@ + decimal(n as nat) + ": "@ + what@,
{
    let mut m = string_from("PlantUML ");
    m.append(kind);
    m.append(" line ");
    push_decimal(&mut m, n);
    m.append(": ");
    crate::text::push_chars(&mut m, what);
    IrError { message: m }
}

fn unrecognized(kind: &str, n: usize, line: &[char]) -> (e: IrError)
    ensures
        e.message@ == "PlantUML "@ + kind@ + " line "@ + decimal(n as nat) + ": "@ + ("unrecognized: "@ + line@),
{
    let mut w = chars_of("unrecognized: ");
    let mut k: usize = 0;
    let ghost w0 = w@;
    while k < line.len()
        invariant
            k <= line@.len(),
            w0 == "unrecognized: "@,
            w@ == w0 + line@.take(k as int),
        decreases line@.len() - k,
    {
        w.push(line[k]);
        assert(line@.take(k + 1) =~= line@.take(k as int).push(line@[k as int]));
        k = k + 1;
    }
    assert(line@.take(line@.len() as int) =~= line@);
    line_err(kind, n, w.as_slice())
}

pub proof fn lemma_line_prefixes()
    ensures
        "PlantUML "@ + "sequence"@ + " line "@ == "PlantUML sequence line "@,
        "PlantUML "@ + "class"@ + " line "@ == "PlantUML class line "@,
        "PlantUML "@ + "activity"@ + " line "@ == "PlantUML activity line "@,
{
    reveal_strlit("PlantUML ");
    reveal_strlit(" line ");
    reveal_strlit("sequence");
    reveal_strlit("class");
    reveal_strlit("activity");
    reveal_strlit("PlantUML sequence line ");
    reveal_strlit("PlantUML class line ");
    reveal_strlit("PlantUML activity line ");
    assert("PlantUML "@ + "sequence"@ + " line "@ =~= "PlantUML sequence line "@);
    assert("PlantUML "@ + "class"@ + " line "@ =~= "PlantUML class line "@);
    assert("PlantUML "@ + "activity"@ + " line "@ =~= "PlantUML activity line "@);
}

fn seq_err(n: usize, what: &str) -> (e: IrError)
    ensures
        e.message@ == seq_line_msg(n as int, what@),
{
    proof { lemma_line_prefixes(); }
    let w = chars_of(what);
    line_err("sequence", n, w.as_slice())
}

fn note_end_exec(ls: &Vec<Vec<char>>, j: usize) -> (r: Option<usize>)
    ensures
        match note_end(seqs(ls@), j as int) {
            Some(k) => r == Some(k as usize),
            None => r is None,
        },
{
    let ghost lv = seqs(ls@);
    let mut k: usize = j;
    while k < ls.len()
        invariant
            j <= k,
            lv == seqs(ls@),
            note_end(lv, j as int) == note_end(lv, k as int),
        decreases ls@.len() - k,
    {
        assert(lv[k as int] == ls@[k as int]@);
        if is_end_note_exec(ls[k].as_slice()) {
            return Some(k);
        }
        k = k + 1;
    }
    None
}

fn note_body_exec(ls: &Vec<Vec<char>>, a: usize, b: usize) -> (r: Vec<String>)
    requires
        a <= b <= ls@.len(),
    ensures
        views(r@) == note_body(seqs(ls@), a as int, b as int),
{
    let ghost lv = seqs(ls@);
    let mut r: Vec<String> = Vec::new();
    let mut k: usize = a;
    while k < b
        invariant
            a <= k <= b <= ls@.len(),
            lv == seqs(ls@),
            views(r@) == note_body(lv, a as int, k as int),
        decreases b - k,
    {
        assert(lv[k as int] == ls@[k as int]@);
        let t = ls[k].as_slice();
        let keep = t.len() > 0 && !starts_with(t, chars_of("'").as_slice());
        proof {
            assert(keep == (lv[k as int].len() > 0 && !("'"@.is_prefix_of(lv[k as int]))));
            assert(note_body(lv, a as int, k + 1) == if keep {
                note_body(lv, a as int, k as int).push(lv[k as int])
            } else {
                note_body(lv, a as int, k as int)
            });
        }
        if keep {
            let ghost before = views(r@);
            r.push(string_of(t));
            assert(views(r@) =~= before.push(t@));
        }
        k = k + 1;
    }
    r
}

fn puml_note_exec(ls: &Vec<Vec<char>>, start: usize, before: usize) -> (r: Result<Option<(Note, usize)>, IrError>)
    requires
        start < ls@.len(),
    ensures
        match puml_note(seqs(ls@), start as int, before as int) {
            Ok(Some((nv, next))) => r matches Ok(Some((x, k))) && note_v(x) == nv && k == next,
            Ok(None) => r matches Ok(None),
            Err(m) => r matches Err(e) && e.message@ == m,
        },
{
    let ghost lv = seqs(ls@);
    assert(lv[start as int] == ls@[start as int]@);
    let len = ls.len();
    let n = start + 1;
    let line = ls[start].as_slice();
    let r0 = match strip_prefix_exec(line, "note ") {
        Some(r) => Some(r),
        None => strip_prefix_exec(line, "Note "),
    };
    let r0 = match r0 {
        None => return Ok(None),
        Some(r0) => r0,
    };
    let k0 = trim_start_index(r0.as_slice());
    let rs = &r0.as_slice()[k0..r0.len()];
    assert(rs@ == trim_start(r0@));
    let (pl, rest) = match note_placement_exec(rs) {
        None => return Err(seq_err(n, "expected note left/right of or note over")),
        Some(x) => x,
    };
    match split_once_exec(rest.as_slice(), ":") {
        Some((ap, text)) => {
            let actors = note_actors_exec(ap.as_slice());
            if actors.len() == 0 {
                return Err(seq_err(n, "note missing actor"));
            }
            let t = slice_to_vec(trim_slice(text.as_slice()));
            let note = Note { placement: pl, actors, text: string_of(t.as_slice()), before_message: before, depth: 0 };
            Ok(Some((note, start + 1)))
        },
        None => {
            let actors = note_actors_exec(rest.as_slice());
            if actors.len() == 0 {
                return Err(seq_err(n, "note missing actor"));
            }
            match note_end_exec(ls, start + 1) {
                Some(k) => {
                    proof {
                        lemma_note_end_after(lv, start + 1);
                        assert(lv.len() == ls@.len());
                    }
                    let body = note_body_exec(ls, start + 1, k);
                    let text = join_strings(&body, " ");
                    let note = Note { placement: pl, actors, text, before_message: before, depth: 0 };
                    Ok(Some((note, k + 1)))
                },
                None => Err(seq_err(n, "unclosed note (expected end note)")),
            }
        },
    }
}

fn skip_common_exec(l: &[char]) -> (b: bool)
    ensures
        b == skip_common(l@),
{
    l.len() == 0 || starts_with(l, chars_of("@").as_slice()) || starts_with(l, chars_of("'").as_slice())
        || starts_with(l, chars_of("skinparam").as_slice()) || starts_with(l, chars_of("title ").as_slice())
}

/// Read a PlantUML sequence diagram.
fn parse_sequence(source: &str) -> (r: Result<SequenceDiagram, IrError>)
    ensures
        match puml_sequence(source@) {
            Ok(d) => r matches Ok(x) && seq_v(x) == d,
            Err(m) => r matches Err(e) && e.message@ == m,
        },
{
    let ls = trimmed_lines(source);
    let ghost lv = seqs(ls@);
    let mut d = SequenceDiagram { participants: Vec::new(), messages: Vec::new(), notes: Vec::new(), fragments: Vec::new() };
    let ghost d0 = seq_v(d);
    assert(d0 =~= (SeqV { parts: Seq::empty(), messages: Seq::empty(), notes: Seq::empty(), fragments: Seq::empty() }));
    let mut i: usize = 0;
    while i < ls.len()
        invariant
            i <= ls@.len(),
            lv == seqs(ls@),
            lv == all_lines(source@),
            puml_seq_run(lv, 0, d0) == puml_seq_run(lv, i as int, seq_v(d)),
            d0 == (SeqV { parts: Seq::empty(), messages: Seq::empty(), notes: Seq::empty(), fragments: Seq::empty() }),
            seq_v(d).fragments.len() == 0,
        decreases ls@.len() - i,
    {
        assert(lv[i as int] == ls@[i as int]@);
        let ghost dv = seq_v(d);
        proof {
            lemma_seq_step_advances(lv, i as int, dv);
            lemma_seq_run_step(lv, i as int, dv);
        }
        let line = ls[i].as_slice();
        if skip_common_exec(line) || starts_with(line, chars_of("autonumber").as_slice()) {
            i = i + 1;
        } else {
            match participant_rest_exec(line) {
                Some(rest) => {
                    let (id, label) = puml_participant_exec(rest.as_slice());
                    declare_part_exec(&mut d, id.as_slice(), label.as_slice());
                    i = i + 1;
                },
                None => {
                    let m = d.messages.len();
                    match puml_note_exec(&ls, i, m) {
                        Err(e) => {
                            return Err(e);
                        },
                        Ok(Some((note, next))) => {
                            ensure_all_exec(&mut d, &note.actors);
                            let ghost dn = seq_v(d);
                            d.notes.push(note);
                            assert(seq_v(d) =~= (SeqV { notes: dn.notes.push(note_v(note)), ..dn }));
                            i = next;
                        },
                        Ok(None) => match puml_message_exec(line) {
                            Some(msg) => {
                                let from = chars_of(msg.from.as_str());
                                let to = chars_of(msg.to.as_str());
                                ensure_part_exec(&mut d, from.as_slice());
                                ensure_part_exec(&mut d, to.as_slice());
                                let ghost dm = seq_v(d);
                                d.messages.push(msg);
                                assert(seq_v(d) =~= (SeqV { messages: dm.messages.push(msg_v(msg)), ..dm }));
                                i = i + 1;
                            },
                            None => {
                                proof { lemma_line_prefixes(); }
                                return Err(unrecognized("sequence", i + 1, line));
                            },
                        },
                    }
                },
            }
        }
    }
    if d.messages.len() == 0 && d.participants.len() == 0 {
        return Err(IrError::new("PlantUML sequence: no participants or messages"));
    }
    Ok(d)
}


// ---------------------------------------------------------------- class diagrams

/// Lines the class reader passes over.
pub open spec fn skip_class_line(l: Seq<char>) -> bool {
    skip_common(l) || "hide "@.is_prefix_of(l) || "note "@.is_prefix_of(l) || "package "@.is_prefix_of(l)
        || "namespace "@.is_prefix_of(l) || l == "end"@ || "end "@.is_prefix_of(l)
}

/// The entity keywords, tried in this order.
pub open spec fn entity_prefix(k: int) -> Seq<char> {
    if k == 0 {
        "abstract class "@
    } else if k == 1 {
        "interface "@
    } else if k == 2 {
        "enum "@
    } else {
        "class "@
    }
}

/// The stereotype a keyword implies.
pub open spec fn prefix_stereo(k: int) -> Option<Seq<char>> {
    if k == 0 {
        Some("abstract"@)
    } else if k == 1 {
        Some("interface"@)
    } else if k == 2 {
        Some("enum"@)
    } else {
        None
    }
}

pub open spec fn or_opt(a: Option<Seq<char>>, b: Option<Seq<char>>) -> Option<Seq<char>> {
    match a {
        Some(x) => Some(x),
        None => b,
    }
}

pub type EntityV = (Seq<char>, Option<Seq<char>>, Option<Seq<char>>);

/// An entity declaration with keyword `k`: `None` when the keyword does not
/// start the line; otherwise the id, stereotype and text after `{`, if any.
pub open spec fn entity_with(line: Seq<char>, k: int) -> Option<Option<EntityV>> {
    match strip_prefix(line, entity_prefix(k)) {
        None => None,
        Some(r0) => {
            let rest = trim(r0);
            Some(match crate::text::find_char(rest, '{') {
                Some(b) => {
                    let (id, fa) = split_id_stereotype(trim(rest.subrange(0, b)));
                    if id.len() == 0 {
                        None
                    } else {
                        Some((id, or_opt(fa, prefix_stereo(k)), Some(trim(rest.subrange(b + 1, rest.len() as int)))))
                    }
                },
                None => {
                    let (id, fa) = split_id_stereotype(rest);
                    if id.len() == 0 {
                        None
                    } else {
                        Some((id, or_opt(fa, prefix_stereo(k)), None))
                    }
                },
            })
        },
    }
}

pub open spec fn entity_decl(line: Seq<char>) -> Option<EntityV> {
    match entity_with(line, 0) {
        Some(r) => r,
        None => match entity_with(line, 1) {
            Some(r) => r,
            None => match entity_with(line, 2) {
                Some(r) => r,
                None => match entity_with(line, 3) {
                    Some(r) => r,
                    None => None,
                },
            },
        },
    }
}

/// `Id : member`.
pub open spec fn colon_member(line: Seq<char>) -> Option<(Seq<char>, Seq<char>)> {
    match split_once(line, ":"@) {
        None => None,
        Some((l, r)) => {
            let id = trim(l);
            let m = trim(r);
            if id.len() == 0 || m.len() == 0 {
                None
            } else if id.contains('<') || id.contains('>') || id.contains('-') {
                None
            } else {
                Some((id, m))
            }
        },
    }
}

/// The last word that does not start with a quote.
pub open spec fn last_unquoted(ws: Seq<Seq<char>>) -> Option<Seq<char>>
    decreases ws.len(),
{
    if ws.len() == 0 {
        None
    } else if !(ws.last().len() > 0 && ws.last()[0] == '"') {
        Some(ws.last())
    } else {
        last_unquoted(ws.drop_last())
    }
}

pub open spec fn trim_start_quotes(s: Seq<char>) -> Seq<char>
    decreases s.len(),
{
    if s.len() > 0 && s[0] == '"' {
        trim_start_quotes(s.drop_first())
    } else {
        s
    }
}

pub open spec fn trim_end_quotes(s: Seq<char>) -> Seq<char>
    decreases s.len(),
{
    if s.len() > 0 && s.last() == '"' {
        trim_end_quotes(s.drop_last())
    } else {
        s
    }
}

/// A relation end: its last unquoted word, quotes trimmed.
pub open spec fn endpoint(s: Seq<char>) -> Seq<char> {
    let w = match last_unquoted(crate::text::words(s)) {
        Some(w) => w,
        None => s,
    };
    trim_end_quotes(trim_start_quotes(w))
}

/// Members, in order.
pub open spec fn add_members(cs: Seq<ClassV>, id: Seq<char>, ms: Seq<Seq<char>>) -> Seq<ClassV>
    decreases ms.len(),
{
    if ms.len() == 0 {
        cs
    } else {
        add_member(add_members(cs, id, ms.drop_last()), id, ms.last())
    }
}

/// `;`-separated members of one chunk of a class body.
pub open spec fn push_members(cs: Seq<ClassV>, id: Seq<char>, chunk: Seq<char>) -> Seq<ClassV> {
    add_members(cs, id, crate::text::nonempty_trimmed(split_char(chunk, ';')))
}

/// Body lines of a class from `j` up to and including the closing brace.
pub open spec fn class_body(ls: Seq<Seq<char>>, j: int, cs: Seq<ClassV>, id: Seq<char>) -> (Seq<ClassV>, int)
    decreases ls.len() - j,
{
    if j < 0 || j >= ls.len() {
        (cs, ls.len() as int)
    } else if ls[j] == "}"@ {
        (cs, j + 1)
    } else if ls[j].len() > 0 && ls[j].last() == '}' {
        (push_members(cs, id, ls[j].drop_last()), j + 1)
    } else {
        class_body(ls, j + 1, push_members(cs, id, ls[j]), id)
    }
}

pub proof fn lemma_class_body_after(ls: Seq<Seq<char>>, j: int, cs: Seq<ClassV>, id: Seq<char>)
    requires
        0 <= j,
    ensures
        j <= class_body(ls, j, cs, id).1 <= ls.len() || (j >= ls.len() && class_body(ls, j, cs, id).1 == ls.len()),
    decreases ls.len() - j,
{
    if 0 <= j < ls.len() && ls[j] != "}"@ && !(ls[j].len() > 0 && ls[j].last() == '}') {
        lemma_class_body_after(ls, j + 1, push_members(cs, id, ls[j]), id);
    }
}

/// Reader state of a class diagram.
#[verifier::ext_equal]
pub ghost struct PClsSt {
    pub classes: Seq<ClassV>,
    pub relations: Seq<RelV>,
    pub together: bool,
}

pub open spec fn class_line_msg(n: int, what: Seq<char>) -> Seq<char> {
    "PlantUML class line "@ + decimal(n as nat) + ": "@ + what
}

/// One line of a class diagram: the new state and next index, or the error.
pub open spec fn puml_class_step(ls: Seq<Seq<char>>, i: int, st: PClsSt) -> Result<(PClsSt, int), Seq<char>> {
    let line = ls[i];
    if skip_class_line(line) {
        Ok((st, i + 1))
    } else if line == "together"@ || "together "@.is_prefix_of(line) {
        Ok((PClsSt { together: true, ..st }, i + 1))
    } else if st.together {
        Ok((PClsSt { together: line != "}"@, ..st }, i + 1))
    } else {
        match entity_decl(line) {
            Some((id, stereo, body)) => {
                let cs = set_stereotype(ensure_class(st.classes, id), id, stereo);
                match body {
                    Some(b) => if b.len() > 0 && b.last() == '}' {
                        Ok((PClsSt { classes: push_members(cs, id, trim(trim_end_braces(b))), ..st }, i + 1))
                    } else {
                        let (cs2, next) = class_body(ls, i + 1, push_members(cs, id, b), id);
                        Ok((PClsSt { classes: cs2, ..st }, next))
                    },
                    None => Ok((PClsSt { classes: cs, ..st }, i + 1)),
                }
            },
            None => match colon_member(line) {
                Some((id, m)) => Ok((PClsSt { classes: add_member(ensure_class(st.classes, id), id, m), ..st }, i + 1)),
                None => match relation_line(line) {
                    Some(rel) => {
                        let from = endpoint(rel.0);
                        let to = endpoint(rel.1);
                        Ok((PClsSt {
                            classes: ensure_class(ensure_class(st.classes, from), to),
                            relations: st.relations.push((from, to, rel.2, rel.3, rel.4, rel.5)),
                            ..st
                        }, i + 1))
                    },
                    None => Err(class_line_msg(i + 1, "unrecognized: "@ + line)),
                },
            },
        }
    }
}

pub proof fn lemma_class_step_advances(ls: Seq<Seq<char>>, i: int, st: PClsSt)
    requires
        0 <= i < ls.len(),
    ensures
        puml_class_step(ls, i, st) matches Ok((_, next)) ==> i < next <= ls.len(),
{
    let line = ls[i];
    if let Some((id, stereo, body)) = entity_decl(line) {
        let cs = set_stereotype(ensure_class(st.classes, id), id, stereo);
        if let Some(b) = body {
            lemma_class_body_after(ls, i + 1, push_members(cs, id, b), id);
        }
    }
}

pub open spec fn puml_class_run(ls: Seq<Seq<char>>, i: int, st: PClsSt) -> Result<PClsSt, Seq<char>>
    decreases ls.len() - i,
{
    if i < 0 || i >= ls.len() {
        Ok(st)
    } else {
        match puml_class_step(ls, i, st) {
            Ok((st2, next)) => {
                proof { lemma_class_step_advances(ls, i, st); }
                puml_class_run(ls, next, st2)
            },
            Err(e) => Err(e),
        }
    }
}

pub proof fn lemma_class_run_step(ls: Seq<Seq<char>>, i: int, st: PClsSt)
    requires
        0 <= i < ls.len(),
    ensures
        match puml_class_step(ls, i, st) {
            Ok((st2, next)) => puml_class_run(ls, i, st) == puml_class_run(ls, next, st2),
            Err(m) => puml_class_run(ls, i, st) == Err::<PClsSt, Seq<char>>(m),
        },
{
}

/// What reading a PlantUML class diagram gives.
pub open spec fn puml_class(src: Seq<char>) -> Result<ClassDiagramV, Seq<char>> {
    match puml_class_run(all_lines(src), 0, PClsSt { classes: Seq::empty(), relations: Seq::empty(), together: false }) {
        Ok(st) => if st.classes.len() == 0 && st.relations.len() == 0 {
            Err("PlantUML class: no classes or relations"@)
        } else {
            Ok(ClassDiagramV { classes: st.classes, relations: st.relations, notes: Seq::empty() })
        },
        Err(e) => Err(e),
    }
}


pub open spec fn ov(o: Option<Vec<char>>) -> Option<Seq<char>> {
    match o {
        Some(v) => Some(v@),
        None => None,
    }
}

fn skip_class_exec(l: &[char]) -> (b: bool)
    ensures
        b == skip_class_line(l@),
{
    proof { reveal_strlit("end"); }
    skip_common_exec(l) || starts_with(l, chars_of("hide ").as_slice()) || starts_with(l, chars_of("note ").as_slice())
        || starts_with(l, chars_of("package ").as_slice()) || starts_with(l, chars_of("namespace ").as_slice())
        || crate::text::eq_slice(l, chars_of("end").as_slice()) || starts_with(l, chars_of("end ").as_slice())
}

fn or_opt_exec(a: Option<Vec<char>>, b: Option<Vec<char>>) -> (r: Option<Vec<char>>)
    ensures
        ov(r) == or_opt(ov(a), ov(b)),
{
    match a {
        Some(x) => Some(x),
        None => b,
    }
}

fn prefix_stereo_exec(k: usize) -> (r: Option<Vec<char>>)
    ensures
        ov(r) == prefix_stereo(k as int),
{
    if k == 0 {
        Some(chars_of("abstract"))
    } else if k == 1 {
        Some(chars_of("interface"))
    } else if k == 2 {
        Some(chars_of("enum"))
    } else {
        None
    }
}

pub open spec fn entity_v(e: (Vec<char>, Option<Vec<char>>, Option<Vec<char>>)) -> EntityV {
    (e.0@, ov(e.1), ov(e.2))
}

fn entity_with_exec(line: &[char], k: usize) -> (r: Option<Option<(Vec<char>, Option<Vec<char>>, Option<Vec<char>>)>>)
    ensures
        match entity_with(line@, k as int) {
            None => r is None,
            Some(None) => r matches Some(None),
            Some(Some(e)) => r matches Some(Some(x)) && entity_v(x) == e,
        },
{
    let pre = if k == 0 {
        "abstract class "
    } else if k == 1 {
        "interface "
    } else if k == 2 {
        "enum "
    } else {
        "class "
    };
    let r0 = match strip_prefix_exec(line, pre) {
        None => return None,
        Some(r0) => r0,
    };
    let rest = trim_slice(r0.as_slice());
    let n = rest.len();
    match crate::text::find_char_slice(rest, '{') {
        Some(b) => {
            proof { crate::text::lemma_find_char_from(rest@, '{', 0); }
            let (id, fa) = split_id_stereotype_exec(trim_slice(&rest[0..b]));
            if id.len() == 0 {
                Some(None)
            } else {
                let st = or_opt_exec(fa, prefix_stereo_exec(k));
                Some(Some((id, st, Some(slice_to_vec(trim_slice(&rest[b + 1..n]))))))
            }
        },
        None => {
            let (id, fa) = split_id_stereotype_exec(rest);
            if id.len() == 0 {
                Some(None)
            } else {
                let st = or_opt_exec(fa, prefix_stereo_exec(k));
                Some(Some((id, st, None)))
            }
        },
    }
}

fn entity_decl_exec(line: &[char]) -> (r: Option<(Vec<char>, Option<Vec<char>>, Option<Vec<char>>)>)
    ensures
        match entity_decl(line@) {
            None => r is None,
            Some(e) => r matches Some(x) && entity_v(x) == e,
        },
{
    let mut k: usize = 0;
    while k < 4
        invariant
            k <= 4,
            forall|j: int| 0 <= j < k ==> entity_with(line@, j) is None,
        decreases 4 - k,
    {
        match entity_with_exec(line, k) {
            Some(r) => return r,
            None => {},
        }
        k = k + 1;
    }
    None
}

fn colon_member_exec(line: &[char]) -> (r: Option<(Vec<char>, Vec<char>)>)
    ensures
        match colon_member(line@) {
            None => r is None,
            Some((a, b)) => r matches Some((x, y)) && x@ == a && y@ == b,
        },
{
    match split_once_exec(line, ":") {
        None => None,
        Some((l, r)) => {
            let id = trim_slice(l.as_slice());
            let m = trim_slice(r.as_slice());
            if id.len() == 0 || m.len() == 0 {
                None
            } else if crate::text::contains_char(id, '<') || crate::text::contains_char(id, '>')
                || crate::text::contains_char(id, '-') {
                None
            } else {
                Some((slice_to_vec(id), slice_to_vec(m)))
            }
        },
    }
}

fn endpoint_exec(s: &[char]) -> (r: Vec<char>)
    ensures
        r@ == endpoint(s@),
{
    let ws = crate::text::words_of(s);
    let ghost wv = seqs(ws@);
    let mut k: usize = ws.len();
    let mut found: Option<usize> = None;
    assert(wv.take(k as int) =~= wv);
    while k > 0 && found.is_none()
        invariant
            k <= ws@.len(),
            wv == seqs(ws@),
            found is None ==> last_unquoted(wv) == last_unquoted(wv.take(k as int)),
            found matches Some(j) ==> j < ws@.len() && last_unquoted(wv) == Some(wv[j as int]),
        decreases k + if found is None { 1int } else { 0int },
    {
        let w = ws[k - 1].as_slice();
        assert(wv.take(k as int).last() == w@);
        assert(wv.take(k as int).drop_last() =~= wv.take(k - 1));
        if !(w.len() > 0 && w[0] == '"') {
            found = Some(k - 1);
        } else {
            k = k - 1;
        }
    }
    let w: &[char] = match found {
        Some(j) => ws[j].as_slice(),
        None => s,
    };
    proof {
        if found is None {
            assert(wv.take(0) =~= Seq::<Seq<char>>::empty());
        }
    }
    let mut a: usize = 0;
    let n = w.len();
    assert(w@.subrange(0, n as int) =~= w@);
    while a < n && w[a] == '"'
        invariant
            a <= n == w@.len(),
            trim_start_quotes(w@) == trim_start_quotes(w@.subrange(a as int, n as int)),
        decreases n - a,
    {
        assert(w@.subrange(a as int, n as int).drop_first() =~= w@.subrange(a + 1, n as int));
        a = a + 1;
    }
    let mut b: usize = n;
    while b > a && w[b - 1] == '"'
        invariant
            a <= b <= n == w@.len(),
            trim_end_quotes(w@.subrange(a as int, n as int)) == trim_end_quotes(w@.subrange(a as int, b as int)),
        decreases b - a,
    {
        assert(w@.subrange(a as int, b as int).drop_last() =~= w@.subrange(a as int, b - 1));
        b = b - 1;
    }
    proof {
        assert(trim_start_quotes(w@.subrange(a as int, n as int)) == w@.subrange(a as int, n as int));
        assert(trim_end_quotes(w@.subrange(a as int, b as int)) == w@.subrange(a as int, b as int));
    }
    slice_to_vec(&w[a..b])
}

/// Adds the `;`-separated members of `chunk`.
fn push_members_exec(cs: &mut Vec<Class>, id: &[char], chunk: &[char])
    ensures
        classes_v(final(cs)@) == push_members(classes_v(old(cs)@), id@, chunk@),
{
    let ms = crate::text::split_trim_nonempty(chunk, ';');
    let ghost mv = views(ms@);
    let ghost c0 = classes_v(cs@);
    let mut i: usize = 0;
    assert(mv.take(0) =~= Seq::<Seq<char>>::empty());
    while i < ms.len()
        invariant
            i <= ms@.len(),
            mv == views(ms@),
            mv == crate::text::nonempty_trimmed(split_char(chunk@, ';')),
            classes_v(cs@) == add_members(c0, id@, mv.take(i as int)),
        decreases ms@.len() - i,
    {
        assert(mv.take(i + 1).drop_last() =~= mv.take(i as int));
        let m = chars_of(ms[i].as_str());
        add_member_exec(cs, id, m.as_slice());
        i = i + 1;
    }
    assert(mv.take(ms@.len() as int) =~= mv);
}


/// Reads body lines from `j`; returns the index after the closing brace.
fn class_body_exec(ls: &Vec<Vec<char>>, j: usize, cs: &mut Vec<Class>, id: &[char]) -> (next: usize)
    ensures
        (classes_v(final(cs)@), next as int) == class_body(seqs(ls@), j as int, classes_v(old(cs)@), id@),
{
    let ghost lv = seqs(ls@);
    let mut k: usize = j;
    let len = ls.len();
    while k < len
        invariant
            j <= k,
            len == ls@.len(),
            lv == seqs(ls@),
            class_body(lv, j as int, classes_v(old(cs)@), id@) == class_body(lv, k as int, classes_v(cs@), id@),
        decreases len - k,
    {
        assert(lv[k as int] == ls@[k as int]@);
        let t = ls[k].as_slice();
        proof { reveal_strlit("}"); }
        if crate::text::eq_slice(t, chars_of("}").as_slice()) {
            return k + 1;
        }
        if t.len() > 0 && t[t.len() - 1] == '}' {
            push_members_exec(cs, id, &t[0..t.len() - 1]);
            assert(t@.subrange(0, t@.len() - 1) =~= t@.drop_last());
            return k + 1;
        }
        push_members_exec(cs, id, t);
        k = k + 1;
    }
    len
}

pub open spec fn pcls_v(cs: Seq<Class>, rs: Seq<Relation>, together: bool) -> PClsSt {
    PClsSt { classes: classes_v(cs), relations: Seq::new(rs.len(), |i: int| rel_v(rs[i])), together }
}

/// Read a PlantUML class diagram.
fn parse_class(source: &str) -> (r: Result<ClassDiagram, IrError>)
    ensures
        match puml_class(source@) {
            Ok(d) => r matches Ok(x) && cd_v(x) == d,
            Err(m) => r matches Err(e) && e.message@ == m,
        },
{
    let ls = trimmed_lines(source);
    let ghost lv = seqs(ls@);
    let mut cs: Vec<Class> = Vec::new();
    let mut rs: Vec<Relation> = Vec::new();
    let mut together = false;
    let ghost st0 = pcls_v(cs@, rs@, together);
    assert(st0 =~= PClsSt { classes: Seq::empty(), relations: Seq::empty(), together: false });
    let mut i: usize = 0;
    let len = ls.len();
    while i < len
        invariant
            i <= len == ls@.len(),
            lv == seqs(ls@),
            lv == all_lines(source@),
            st0 == (PClsSt { classes: Seq::empty(), relations: Seq::empty(), together: false }),
            puml_class_run(lv, 0, st0) == puml_class_run(lv, i as int, pcls_v(cs@, rs@, together)),
        decreases len - i,
    {
        assert(lv[i as int] == ls@[i as int]@);
        let ghost sv = pcls_v(cs@, rs@, together);
        proof {
            lemma_class_step_advances(lv, i as int, sv);
            lemma_class_run_step(lv, i as int, sv);
            reveal_strlit("together");
            reveal_strlit("}");
        }
        let line = ls[i].as_slice();
        if skip_class_exec(line) {
            i = i + 1;
        } else if crate::text::eq_slice(line, chars_of("together").as_slice())
            || starts_with(line, chars_of("together ").as_slice()) {
            together = true;
            i = i + 1;
        } else if together {
            together = !crate::text::eq_slice(line, chars_of("}").as_slice());
            i = i + 1;
        } else {
            match entity_decl_exec(line) {
                Some((id, stereo, body)) => {
                    ensure_class_exec(&mut cs, id.as_slice());
                    set_stereotype_exec(&mut cs, id.as_slice(), &stereo);
                    assert(ov(stereo) == (match stereo { Some(v) => Some(v@), None => None::<Seq<char>> }));
                    match body {
                        Some(b) => {
                            let bl = b.len();
                            if bl > 0 && b[bl - 1] == '}' {
                                let inner = trim_slice(trim_end_braces_exec(b.as_slice()));
                                push_members_exec(&mut cs, id.as_slice(), inner);
                                i = i + 1;
                            } else {
                                push_members_exec(&mut cs, id.as_slice(), b.as_slice());
                                i = class_body_exec(&ls, i + 1, &mut cs, id.as_slice());
                            }
                        },
                        None => {
                            i = i + 1;
                        },
                    }
                    assert(pcls_v(cs@, rs@, together) =~= pcls_v(cs@, rs@, together));
                },
                None => match colon_member_exec(line) {
                    Some((id, m)) => {
                        ensure_class_exec(&mut cs, id.as_slice());
                        add_member_exec(&mut cs, id.as_slice(), m.as_slice());
                        i = i + 1;
                    },
                    None => match relation_line_exec(line) {
                        Some(rel) => {
                            let f = chars_of(rel.from.as_str());
                            let t = chars_of(rel.to.as_str());
                            let from = endpoint_exec(f.as_slice());
                            let to = endpoint_exec(t.as_slice());
                            ensure_class_exec(&mut cs, from.as_slice());
                            ensure_class_exec(&mut cs, to.as_slice());
                            let ghost rv = Seq::new(rs@.len(), |k: int| rel_v(rs@[k]));
                            let nr = Relation {
                                from: string_of(from.as_slice()),
                                to: string_of(to.as_slice()),
                                kind: rel.kind,
                                label: rel.label,
                                from_card: rel.from_card,
                                to_card: rel.to_card,
                            };
                            rs.push(nr);
                            assert(Seq::new(rs@.len(), |k: int| rel_v(rs@[k])) =~= rv.push(rel_v(nr)));
                            i = i + 1;
                        },
                        None => {
                            proof { lemma_line_prefixes(); }
                            return Err(unrecognized("class", i + 1, line));
                        },
                    },
                },
            }
        }
    }
    if cs.len() == 0 && rs.len() == 0 {
        return Err(IrError::new("PlantUML class: no classes or relations"));
    }
    let d = ClassDiagram { classes: cs, relations: rs, notes: Vec::new() };
    assert(cd_v(d) =~= (ClassDiagramV {
        classes: classes_v(d.classes@),
        relations: Seq::new(d.relations@.len(), |k: int| rel_v(d.relations@[k])),
        notes: Seq::empty(),
    }));
    Ok(d)
}


// ---------------------------------------------------------------- activity diagrams

/// One statement of an activity diagram.
pub enum ActivityStmt {
    Start,
    Stop,
    Action(String),
    If { condition: String, then_label: String },
    Else(String),
    EndIf,
}

pub ghost enum ActStmtV {
    Start,
    Stop,
    Action(Seq<char>),
    If(Seq<char>, Seq<char>),
    Else(Seq<char>),
    EndIf,
}

pub open spec fn stmt_v(s: ActivityStmt) -> ActStmtV {
    match s {
        ActivityStmt::Start => ActStmtV::Start,
        ActivityStmt::Stop => ActStmtV::Stop,
        ActivityStmt::Action(l) => ActStmtV::Action(l@),
        ActivityStmt::If { condition, then_label } => ActStmtV::If(condition@, then_label@),
        ActivityStmt::Else(l) => ActStmtV::Else(l@),
        ActivityStmt::EndIf => ActStmtV::EndIf,
    }
}

/// Index of the `)` that closes the `(` at the start, scanning from `i` at depth `d`.
pub open spec fn paren_close(s: Seq<char>, i: int, d: int) -> Option<int>
    decreases s.len() - i,
{
    if i < 0 || i >= s.len() {
        None
    } else {
        let c = s[i];
        let d2 = if c == '(' {
            d + 1
        } else if c == ')' {
            d - 1
        } else {
            d
        };
        if c == ')' && d2 == 0 {
            Some(i)
        } else {
            paren_close(s, i + 1, d2)
        }
    }
}

/// `(inner) rest`: the trimmed inner text and the rest.
pub open spec fn parse_parens(s0: Seq<char>) -> Option<(Seq<char>, Seq<char>)> {
    let s = trim_start(s0);
    if !(s.len() > 0 && s[0] == '(') {
        None
    } else {
        match paren_close(s, 0, 0) {
            Some(e) => Some((trim(s.subrange(1, e)), trim_start(s.subrange(e + 1, s.len() as int)))),
            None => None,
        }
    }
}

pub open spec fn trim_end_semis(s: Seq<char>) -> Seq<char>
    decreases s.len(),
{
    if s.len() > 0 && s.last() == ';' {
        trim_end_semis(s.drop_last())
    } else {
        s
    }
}

/// The statement on one activity line.
pub open spec fn activity_line(line: Seq<char>) -> Option<ActStmtV> {
    let act = match strip_prefix(line, ":"@) {
        Some(r) => {
            let l = trim(trim_end_semis(r));
            if l.len() > 0 {
                Some(ActStmtV::Action(l))
            } else {
                None
            }
        },
        None => None,
    };
    if line == "start"@ {
        Some(ActStmtV::Start)
    } else if line == "stop"@ || line == "end"@ {
        Some(ActStmtV::Stop)
    } else if line == "endif"@ {
        Some(ActStmtV::EndIf)
    } else if act is Some {
        act
    } else if let Some(rest) = strip_prefix(line, "if "@) {
        match parse_parens(rest) {
            None => None,
            Some((cond, r2)) => match strip_prefix(trim(r2), "then"@) {
                None => None,
                Some(r3) => match parse_parens(trim(r3)) {
                    None => None,
                    Some((tl, _)) => Some(ActStmtV::If(cond, tl)),
                },
            },
        }
    } else if let Some(rest) = strip_prefix(line, "else"@) {
        let t = trim(rest);
        if t.len() >= 2 && t[0] == '(' && t.last() == ')' {
            Some(ActStmtV::Else(t.subrange(1, t.len() - 1)))
        } else {
            Some(ActStmtV::Else(Seq::empty()))
        }
    } else {
        None
    }
}

/// An open `if`: its decision node, branch labels, last node of each branch
/// and which branch is being read.
pub ghost struct FrameV {
    pub fork: int,
    pub then_label: Seq<char>,
    pub else_label: Seq<char>,
    pub yes: Option<int>,
    pub no: Option<int>,
    pub in_else: bool,
}

/// Builder state: nodes (text, shape) by index, edges between indices, the
/// nodes the next step hangs from, and the open `if`s.
#[verifier::ext_equal]
pub ghost struct ActSt {
    pub nodes: Seq<(Seq<char>, NodeShape)>,
    pub edges: Seq<(int, int, Seq<char>)>,
    pub tails: Seq<int>,
    pub stack: Seq<FrameV>,
}

/// Edges from every tail to `to`.
pub open spec fn connect_tails(edges: Seq<(int, int, Seq<char>)>, tails: Seq<int>, to: int, label: Seq<char>) -> Seq<(int, int, Seq<char>)> {
    edges + Seq::new(tails.len(), |k: int| (tails[k], to, label))
}

/// Applying one statement.
pub open spec fn act_apply(st: ActSt, stmt: ActStmtV) -> Result<ActSt, Seq<char>> {
    let id = st.nodes.len() as int;
    match stmt {
        ActStmtV::Start => Ok(ActSt { nodes: st.nodes.push(("start"@, NodeShape::Stadium)), tails: seq![id], ..st }),
        ActStmtV::Stop => Ok(ActSt {
            nodes: st.nodes.push(("stop"@, NodeShape::Stadium)),
            edges: connect_tails(st.edges, st.tails, id, Seq::empty()),
            tails: Seq::empty(),
            ..st
        }),
        ActStmtV::Action(l) => {
            let nodes = st.nodes.push((l, NodeShape::Rect));
            if st.stack.len() > 0 {
                let f = st.stack.last();
                let label = if f.in_else { f.else_label } else { f.then_label };
                let edges = if st.tails.len() == 0 {
                    st.edges.push((f.fork, id, label))
                } else {
                    connect_tails(st.edges, st.tails, id, Seq::empty())
                };
                let f2 = if f.in_else { FrameV { no: Some(id), ..f } } else { FrameV { yes: Some(id), ..f } };
                Ok(ActSt { nodes, edges, tails: seq![id], stack: st.stack.drop_last().push(f2) })
            } else {
                Ok(ActSt { nodes, edges: connect_tails(st.edges, st.tails, id, Seq::empty()), tails: seq![id], ..st })
            }
        },
        ActStmtV::If(cond, tl) => Ok(ActSt {
            nodes: st.nodes.push((cond, NodeShape::Diamond)),
            edges: connect_tails(st.edges, st.tails, id, Seq::empty()),
            tails: Seq::empty(),
            stack: st.stack.push(FrameV { fork: id, then_label: tl, else_label: Seq::empty(), yes: None, no: None, in_else: false }),
        }),
        ActStmtV::Else(l) => if st.stack.len() == 0 {
            Err("PlantUML activity: else without if"@)
        } else {
            let f = st.stack.last();
            let yes = if f.yes is None {
                if st.tails.len() > 0 { Some(st.tails.last()) } else { None }
            } else {
                f.yes
            };
            Ok(ActSt {
                tails: Seq::empty(),
                stack: st.stack.drop_last().push(FrameV { yes, else_label: l, in_else: true, ..f }),
                ..st
            })
        },
        ActStmtV::EndIf => if st.stack.len() == 0 {
            Err("PlantUML activity: endif without if"@)
        } else {
            let f = st.stack.last();
            let m1: Seq<int> = match f.yes { Some(y) => seq![y], None => Seq::empty() };
            let m2: Seq<int> = match f.no { Some(n) => if m1.contains(n) { m1 } else { m1.push(n) }, None => m1 };
            let merge = if m2.len() == 0 { seq![f.fork] } else { m2 };
            Ok(ActSt { tails: merge, stack: st.stack.drop_last(), ..st })
        },
    }
}

/// Lines the activity reader passes over.
pub open spec fn skip_activity_line(l: Seq<char>) -> bool {
    skip_common(l) || "note "@.is_prefix_of(l)
}

/// Lines `i..` of an activity diagram.
pub open spec fn act_run(ls: Seq<Seq<char>>, i: int, st: ActSt) -> Result<ActSt, Seq<char>>
    decreases ls.len() - i,
{
    if i < 0 || i >= ls.len() {
        Ok(st)
    } else if skip_activity_line(ls[i]) {
        act_run(ls, i + 1, st)
    } else {
        match activity_line(ls[i]) {
            None => Err("PlantUML activity line "@ + decimal((i + 1) as nat) + ": "@ + ("unrecognized: "@ + ls[i])),
            Some(stmt) => match act_apply(st, stmt) {
                Ok(st2) => act_run(ls, i + 1, st2),
                Err(e) => Err(e),
            },
        }
    }
}

pub open spec fn empty_act() -> ActSt {
    ActSt { nodes: Seq::empty(), edges: Seq::empty(), tails: Seq::empty(), stack: Seq::empty() }
}

/// What reading a PlantUML activity diagram gives: the built graph.
pub open spec fn puml_activity(src: Seq<char>) -> Result<ActSt, Seq<char>> {
    match act_run(all_lines(src), 0, empty_act()) {
        Ok(st) => if st.nodes.len() == 0 {
            Err("PlantUML activity: no steps"@)
        } else {
            Ok(st)
        },
        Err(e) => Err(e),
    }
}

/// Id of the node with index `k`.
pub open spec fn act_id(k: int) -> Seq<char> {
    "act_"@ + decimal(k as nat)
}

/// `d` is the top-down flowchart of the built graph: node `k` is `act_k`.
pub open spec fn is_activity_of(d: FcDiagram, st: ActSt) -> bool {
    &&& d.rankdir@ == "TD"@
    &&& d.nodes@.len() == st.nodes.len()
    &&& forall|k: int| 0 <= k < st.nodes.len() ==> {
        let n = #[trigger] d.nodes@[k];
        n.id@ == act_id(k) && n.text@ == st.nodes[k].0 && n.shape == st.nodes[k].1 && n.href is None
            && n.tooltip is None
    }
    &&& d.edges@.len() == st.edges.len()
    &&& forall|k: int| 0 <= k < st.edges.len() ==> {
        let e = #[trigger] d.edges@[k];
        e.from@ == act_id(st.edges[k].0) && e.to@ == act_id(st.edges[k].1) && e.label@ == st.edges[k].2
            && e.style == EdgeStyle::Arrow
    }
    &&& d.subgraphs@.len() == 0
    &&& d.styles@.len() == 0
    &&& d.class_defs@.len() == 0
    &&& d.class_applies@.len() == 0
    &&& d.link_styles@.len() == 0
}


fn paren_close_exec(s: &[char]) -> (r: Option<usize>)
    ensures
        match paren_close(s@, 0, 0) {
            Some(e) => r == Some(e as usize),
            None => r is None,
        },
{
    let mut i: usize = 0;
    let mut opens: usize = 0;
    let mut closes: usize = 0;
    let n = s.len();
    while i < n
        invariant
            i <= n == s@.len(),
            opens <= i,
            closes <= i,
            paren_close(s@, 0, 0) == paren_close(s@, i as int, opens - closes),
        decreases n - i,
    {
        let c = s[i];
        if c == '(' {
            opens = opens + 1;
        } else if c == ')' {
            if closes + 1 == opens {
                return Some(i);
            }
            closes = closes + 1;
        }
        i = i + 1;
    }
    None
}

fn parse_parens_exec(s0: &[char]) -> (r: Option<(Vec<char>, Vec<char>)>)
    ensures
        match parse_parens(s0@) {
            Some((a, b)) => r matches Some((x, y)) && x@ == a && y@ == b,
            None => r is None,
        },
{
    let k = trim_start_index(s0);
    let s = &s0[k..s0.len()];
    assert(s@ == trim_start(s0@));
    if !(s.len() > 0 && s[0] == '(') {
        return None;
    }
    match paren_close_exec(s) {
        Some(e) => {
            proof { lemma_paren_close_bound(s@, 0, 0); }
            let inner = trim_slice(&s[1..e]);
            let rest = &s[e + 1..s.len()];
            let j = trim_start_index(rest);
            let after = &rest[j..rest.len()];
            assert(after@ == trim_start(rest@));
            Some((slice_to_vec(inner), slice_to_vec(after)))
        },
        None => None,
    }
}

pub proof fn lemma_paren_close_bound(s: Seq<char>, i: int, d: int)
    requires
        0 <= i,
        s.len() > 0 && s[0] == '(' ==> (i > 0 || d == 0),
        i > 0 ==> d != 0 || true,
    ensures
        paren_close(s, i, d) matches Some(e) ==> i <= e < s.len(),
        (i == 0 && d == 0 && s.len() > 0 && s[0] == '(') ==> (paren_close(s, i, d) matches Some(e) ==> e >= 1),
    decreases s.len() - i,
{
    if 0 <= i < s.len() {
        let c = s[i];
        let d2 = if c == '(' { d + 1 } else if c == ')' { d - 1 } else { d };
        if !(c == ')' && d2 == 0) {
            lemma_paren_close_bound(s, i + 1, d2);
        }
    }
}

fn trim_end_semis_exec(s: &[char]) -> (r: &[char])
    ensures
        r@ == trim_end_semis(s@),
{
    let mut j = s.len();
    assert(s@.subrange(0, j as int) =~= s@);
    while j > 0 && s[j - 1] == ';'
        invariant
            j <= s@.len(),
            trim_end_semis(s@) == trim_end_semis(s@.subrange(0, j as int)),
        decreases j,
    {
        assert(s@.subrange(0, j as int).drop_last() =~= s@.subrange(0, j - 1));
        j = j - 1;
    }
    &s[0..j]
}

fn activity_line_exec(line: &[char]) -> (r: Option<ActivityStmt>)
    ensures
        match activity_line(line@) {
            Some(v) => r matches Some(x) && stmt_v(x) == v,
            None => r is None,
        },
{
    proof {
        reveal_strlit("start");
        reveal_strlit("stop");
        reveal_strlit("end");
        reveal_strlit("endif");
    }
    let eq = |w: &str| -> (b: bool)
        ensures
            b == (line@ == w@),
    {
        crate::text::eq_slice(line, chars_of(w).as_slice())
    };
    if eq("start") {
        return Some(ActivityStmt::Start);
    }
    if eq("stop") || eq("end") {
        return Some(ActivityStmt::Stop);
    }
    if eq("endif") {
        return Some(ActivityStmt::EndIf);
    }
    if let Some(r) = strip_prefix_exec(line, ":") {
        let l = trim_slice(trim_end_semis_exec(r.as_slice()));
        if l.len() > 0 {
            return Some(ActivityStmt::Action(string_of(l)));
        }
    }
    if let Some(rest) = strip_prefix_exec(line, "if ") {
        return match parse_parens_exec(rest.as_slice()) {
            None => None,
            Some((cond, r2)) => match strip_prefix_exec(trim_slice(r2.as_slice()), "then") {
                None => None,
                Some(r3) => match parse_parens_exec(trim_slice(r3.as_slice())) {
                    None => None,
                    Some((tl, _)) => Some(ActivityStmt::If {
                        condition: string_of(cond.as_slice()),
                        then_label: string_of(tl.as_slice()),
                    }),
                },
            },
        };
    }
    if let Some(rest) = strip_prefix_exec(line, "else") {
        let t = trim_slice(rest.as_slice());
        let n = t.len();
        if n >= 2 && t[0] == '(' && t[n - 1] == ')' {
            return Some(ActivityStmt::Else(string_of(&t[1..n - 1])));
        }
        return Some(ActivityStmt::Else(String::new()));
    }
    None
}

/// An open `if` while building.
struct IfFrame {
    fork: usize,
    then_label: String,
    else_label: String,
    yes: Option<usize>,
    no: Option<usize>,
    in_else: bool,
}

/// Activity graph under construction; node `k` becomes `act_k`.
struct ActivityBuilder {
    nodes: Vec<(String, NodeShape)>,
    edges: Vec<(usize, usize, String)>,
    tails: Vec<usize>,
    stack: Vec<IfFrame>,
}

spec fn oi(o: Option<usize>) -> Option<int> {
    match o {
        Some(n) => Some(n as int),
        None => None,
    }
}

spec fn frame_v(f: IfFrame) -> FrameV {
    FrameV { fork: f.fork as int, then_label: f.then_label@, else_label: f.else_label@, yes: oi(f.yes), no: oi(f.no), in_else: f.in_else }
}

spec fn edges_v(es: Seq<(usize, usize, String)>) -> Seq<(int, int, Seq<char>)> {
    Seq::new(es.len(), |k: int| (es[k].0 as int, es[k].1 as int, es[k].2@))
}

spec fn tails_v(ts: Seq<usize>) -> Seq<int> {
    Seq::new(ts.len(), |k: int| ts[k] as int)
}

spec fn builder_v(b: ActivityBuilder) -> ActSt {
    ActSt {
        nodes: Seq::new(b.nodes@.len(), |k: int| (b.nodes@[k].0@, b.nodes@[k].1)),
        edges: edges_v(b.edges@),
        tails: tails_v(b.tails@),
        stack: Seq::new(b.stack@.len(), |k: int| frame_v(b.stack@[k])),
    }
}

fn connect_tails_exec(edges: &mut Vec<(usize, usize, String)>, tails: &Vec<usize>, to: usize, label: &str)
    ensures
        edges_v(final(edges)@) == connect_tails(edges_v(old(edges)@), tails_v(tails@), to as int, label@),
{
    let ghost e0 = edges_v(edges@);
    let mut k: usize = 0;
    while k < tails.len()
        invariant
            k <= tails@.len(),
            edges_v(edges@) == e0 + Seq::new(k as nat, |j: int| (tails@[j] as int, to as int, label@)),
        decreases tails@.len() - k,
    {
        let ghost before = edges_v(edges@);
        let t = tails[k];
        let lab = string_from(label);
        edges.push((t, to, lab));
        assert(edges_v(edges@) =~= before.push((t as int, to as int, label@)));
        assert(edges_v(edges@) =~= e0 + Seq::new((k + 1) as nat, |j: int| (tails@[j] as int, to as int, label@)));
        k = k + 1;
    }
    assert(edges_v(edges@) =~= connect_tails(e0, tails_v(tails@), to as int, label@));
}

fn add_act_node(b: &mut ActivityBuilder, text: String, shape: NodeShape) -> (id: usize)
    ensures
        id == old(b).nodes@.len(),
        builder_v(*final(b)) == (ActSt { nodes: builder_v(*old(b)).nodes.push((text@, shape)), ..builder_v(*old(b)) }),
{
    let id = b.nodes.len();
    let ghost v = builder_v(*b);
    b.nodes.push((text, shape));
    assert(builder_v(*b) =~= (ActSt { nodes: v.nodes.push((text@, shape)), ..v }));
    id
}

fn apply_exec(b: &mut ActivityBuilder, stmt: ActivityStmt) -> (r: Result<(), IrError>)
    ensures
        match act_apply(builder_v(*old(b)), stmt_v(stmt)) {
            Ok(st) => r is Ok && builder_v(*final(b)) == st,
            Err(m) => r matches Err(e) && e.message@ == m,
        },
{
    proof {
        reveal_strlit("");
        assert(""@ =~= Seq::<char>::empty());
    }
    let ghost v = builder_v(*b);
    let ghost sv = stmt_v(stmt);
    match stmt {
        ActivityStmt::Start => {
            let id = add_act_node(b, string_from("start"), NodeShape::Stadium);
            let ghost va = builder_v(*b);
            assert(va.nodes == v.nodes.push(("start"@, NodeShape::Stadium)));
            assert(va.stack == v.stack);
            assert(va.edges == v.edges);
            assert(id as int == v.nodes.len());
            b.tails = vec![id];
            assert(builder_v(*b).stack == va.stack);
            assert(builder_v(*b).nodes == va.nodes);
            assert(tails_v(b.tails@) =~= seq![id as int]);
            assert(builder_v(*b) =~= (ActSt { nodes: v.nodes.push(("start"@, NodeShape::Stadium)), tails: seq![id as int], ..v }));
            assert(stmt_v(stmt) == ActStmtV::Start);
            assert(act_apply(v, ActStmtV::Start) == Ok::<ActSt, Seq<char>>(builder_v(*b)));
            Ok(())
        },
        ActivityStmt::Stop => {
            let id = add_act_node(b, string_from("stop"), NodeShape::Stadium);
            let ghost v1 = builder_v(*b);
            connect_tails_exec(&mut b.edges, &b.tails, id, "");
            b.tails = Vec::new();
            assert(tails_v(b.tails@) =~= Seq::<int>::empty());
            assert(v1.tails == v.tails);
            assert(builder_v(*b) =~= (ActSt {
                nodes: v.nodes.push(("stop"@, NodeShape::Stadium)),
                edges: connect_tails(v.edges, v.tails, id as int, Seq::empty()),
                tails: Seq::empty(),
                ..v
            }));
            Ok(())
        },
        ActivityStmt::Action(label) => {
            let ghost l = label@;
            let id = add_act_node(b, label, NodeShape::Rect);
            let ghost v1 = builder_v(*b);
            let sl = b.stack.len();
            if sl > 0 {
                let ghost f = v.stack.last();
                let in_else = b.stack[sl - 1].in_else;
                let fork = b.stack[sl - 1].fork;
                let lab = if in_else {
                    string_from(b.stack[sl - 1].else_label.as_str())
                } else {
                    string_from(b.stack[sl - 1].then_label.as_str())
                };
                assert(frame_v(b.stack@[sl - 1]) == f);
                if b.tails.len() == 0 {
                    let ghost e0 = edges_v(b.edges@);
                    b.edges.push((fork, id, lab));
                    assert(edges_v(b.edges@) =~= e0.push((f.fork, id as int, if f.in_else { f.else_label } else { f.then_label })));
                } else {
                    connect_tails_exec(&mut b.edges, &b.tails, id, "");
                }
                let ghost s0 = b.stack@;
                let mut top = b.stack.pop().unwrap();
                if in_else {
                    top.no = Some(id);
                } else {
                    top.yes = Some(id);
                }
                b.stack.push(top);
                assert(Seq::new(b.stack@.len(), |k: int| frame_v(b.stack@[k])) =~= v.stack.drop_last().push(
                    if f.in_else { FrameV { no: Some(id as int), ..f } } else { FrameV { yes: Some(id as int), ..f } }));
            } else {
                connect_tails_exec(&mut b.edges, &b.tails, id, "");
            }
            b.tails = vec![id];
            assert(tails_v(b.tails@) =~= seq![id as int]);
            assert(act_apply(v, sv) == Ok::<ActSt, Seq<char>>(builder_v(*b)));
            Ok(())
        },
        ActivityStmt::If { condition, then_label } => {
            let id = add_act_node(b, condition, NodeShape::Diamond);
            connect_tails_exec(&mut b.edges, &b.tails, id, "");
            let ghost s0 = Seq::new(b.stack@.len(), |k: int| frame_v(b.stack@[k]));
            let fr = IfFrame { fork: id, then_label, else_label: String::new(), yes: None, no: None, in_else: false };
            b.stack.push(fr);
            assert(Seq::new(b.stack@.len(), |k: int| frame_v(b.stack@[k])) =~= s0.push(frame_v(fr)));
            b.tails = Vec::new();
            assert(tails_v(b.tails@) =~= Seq::<int>::empty());
            assert(act_apply(v, sv) == Ok::<ActSt, Seq<char>>(builder_v(*b)));
            Ok(())
        },
        ActivityStmt::Else(label) => {
            if b.stack.len() == 0 {
                return Err(IrError::new("PlantUML activity: else without if"));
            }
            let ghost f = v.stack.last();
            let tl = b.tails.len();
            let mut top = b.stack.pop().unwrap();
            assert(frame_v(top) == f);
            if top.yes.is_none() {
                top.yes = if tl > 0 { Some(b.tails[tl - 1]) } else { None };
            }
            top.else_label = label;
            top.in_else = true;
            b.stack.push(top);
            b.tails = Vec::new();
            assert(builder_v(*b) =~= (ActSt {
                tails: Seq::empty(),
                stack: v.stack.drop_last().push(frame_v(top)),
                ..v
            }));
            Ok(())
        },
        ActivityStmt::EndIf => {
            if b.stack.len() == 0 {
                return Err(IrError::new("PlantUML activity: endif without if"));
            }
            let ghost f = v.stack.last();
            let top = b.stack.pop().unwrap();
            assert(frame_v(top) == f);
            let mut merge: Vec<usize> = Vec::new();
            if let Some(y) = top.yes {
                merge.push(y);
            }
            let ghost m1 = tails_v(merge@);
            if let Some(n) = top.no {
                let present = merge.len() == 1 && merge[0] == n;
                assert(present == m1.contains(n as int)) by {
                    if present {
                        assert(m1[0] == n as int);
                    }
                    if m1.contains(n as int) {
                        let j = choose|j: int| 0 <= j < m1.len() && m1[j] == n as int;
                    }
                }
                if !present {
                    merge.push(n);
                }
            }
            let ghost em1: Seq<int> = match f.yes { Some(y) => seq![y], None => Seq::empty() };
            let ghost em2: Seq<int> = match f.no { Some(n) => if em1.contains(n) { em1 } else { em1.push(n) }, None => em1 };
            assert(m1 =~= em1);
            assert(tails_v(merge@) =~= em2);
            if merge.len() == 0 {
                merge.push(top.fork);
            }
            assert(tails_v(merge@) =~= (if em2.len() == 0 { seq![f.fork] } else { em2 }));
            b.tails = merge;
            assert(builder_v(*b) =~= (ActSt {
                tails: {
                    let m1: Seq<int> = match f.yes { Some(y) => seq![y], None => Seq::empty() };
                    let m2: Seq<int> = match f.no { Some(n) => if m1.contains(n) { m1 } else { m1.push(n) }, None => m1 };
                    if m2.len() == 0 { seq![f.fork] } else { m2 }
                },
                stack: v.stack.drop_last(),
                ..v
            }));
            Ok(())
        },
    }
}


fn act_id_exec(k: usize) -> (r: String)
    ensures
        r@ == act_id(k as int),
{
    let mut s = string_from("act_");
    push_decimal(&mut s, k);
    s
}

/// The flowchart of a built graph.
fn finish_activity(b: &ActivityBuilder) -> (d: FcDiagram)
    ensures
        is_activity_of(d, builder_v(*b)),
{
    let ghost v = builder_v(*b);
    let mut d = FcDiagram::new("TD");
    let mut k: usize = 0;
    while k < b.nodes.len()
        invariant
            k <= b.nodes@.len(),
            v == builder_v(*b),
            d.rankdir@ == "TD"@,
            d.nodes@.len() == k,
            forall|j: int| 0 <= j < k ==> {
                let n = #[trigger] d.nodes@[j];
                n.id@ == act_id(j) && n.text@ == v.nodes[j].0 && n.shape == v.nodes[j].1 && n.href is None
                    && n.tooltip is None
            },
            d.edges@.len() == 0,
            d.subgraphs@.len() == 0,
            d.styles@.len() == 0,
            d.class_defs@.len() == 0,
            d.class_applies@.len() == 0,
            d.link_styles@.len() == 0,
        decreases b.nodes@.len() - k,
    {
        let node = Node {
            id: act_id_exec(k),
            text: string_from(b.nodes[k].0.as_str()),
            shape: b.nodes[k].1,
            href: None,
            tooltip: None,
        };
        d.nodes.push(node);
        k = k + 1;
    }
    let mut k: usize = 0;
    while k < b.edges.len()
        invariant
            k <= b.edges@.len(),
            v == builder_v(*b),
            d.rankdir@ == "TD"@,
            d.nodes@.len() == v.nodes.len(),
            forall|j: int| 0 <= j < v.nodes.len() ==> {
                let n = #[trigger] d.nodes@[j];
                n.id@ == act_id(j) && n.text@ == v.nodes[j].0 && n.shape == v.nodes[j].1 && n.href is None
                    && n.tooltip is None
            },
            d.edges@.len() == k,
            forall|j: int| 0 <= j < k ==> {
                let e = #[trigger] d.edges@[j];
                e.from@ == act_id(v.edges[j].0) && e.to@ == act_id(v.edges[j].1) && e.label@ == v.edges[j].2
                    && e.style == EdgeStyle::Arrow
            },
            d.subgraphs@.len() == 0,
            d.styles@.len() == 0,
            d.class_defs@.len() == 0,
            d.class_applies@.len() == 0,
            d.link_styles@.len() == 0,
        decreases b.edges@.len() - k,
    {
        let e = Edge {
            from: act_id_exec(b.edges[k].0),
            to: act_id_exec(b.edges[k].1),
            label: string_from(b.edges[k].2.as_str()),
            style: EdgeStyle::Arrow,
        };
        d.edges.push(e);
        k = k + 1;
    }
    d
}

fn skip_activity_exec(l: &[char]) -> (b: bool)
    ensures
        b == skip_activity_line(l@),
{
    skip_common_exec(l) || starts_with(l, chars_of("note ").as_slice())
}

/// Read a PlantUML activity diagram.
fn parse_activity(source: &str) -> (r: Result<FcDiagram, IrError>)
    ensures
        match puml_activity(source@) {
            Ok(st) => r matches Ok(d) && is_activity_of(d, st),
            Err(m) => r matches Err(e) && e.message@ == m,
        },
{
    let ls = trimmed_lines(source);
    let ghost lv = seqs(ls@);
    let mut b = ActivityBuilder { nodes: Vec::new(), edges: Vec::new(), tails: Vec::new(), stack: Vec::new() };
    assert(builder_v(b) =~= empty_act());
    let mut i: usize = 0;
    let len = ls.len();
    while i < len
        invariant
            i <= len == ls@.len(),
            lv == seqs(ls@),
            lv == all_lines(source@),
            act_run(lv, 0, empty_act()) == act_run(lv, i as int, builder_v(b)),
        decreases len - i,
    {
        assert(lv[i as int] == ls@[i as int]@);
        let line = ls[i].as_slice();
        if !skip_activity_exec(line) {
            match activity_line_exec(line) {
                None => {
                    proof { lemma_line_prefixes(); }
                    return Err(unrecognized("activity", i + 1, line));
                },
                Some(stmt) => {
                    match apply_exec(&mut b, stmt) {
                        Ok(()) => {},
                        Err(e) => return Err(e),
                    }
                },
            }
        }
        i = i + 1;
    }
    if b.nodes.len() == 0 {
        return Err(IrError::new("PlantUML activity: no steps"));
    }
    Ok(finish_activity(&b))
}

/// Lines that carry content for the kind detection.
pub open spec fn meaningful(l: Seq<char>) -> bool {
    !skip_seq_line(l)
}

pub open spec fn activity_marker(l: Seq<char>) -> bool {
    l == "start"@ || l == "stop"@ || l == "end"@ || (":"@.is_prefix_of(l) && find(l, "->"@) is None)
}

pub open spec fn class_marker(l: Seq<char>) -> bool {
    "class "@.is_prefix_of(l) || "interface "@.is_prefix_of(l) || "enum "@.is_prefix_of(l)
        || find(l, " <|-- "@) is Some || find(l, " --|> "@) is Some
}

/// Some content line is `start`, `stop`, `end` or an action.
pub open spec fn looks_activity(src: Seq<char>) -> bool {
    let ls = all_lines(src);
    exists|i: int| 0 <= i < ls.len() && meaningful(#[trigger] ls[i]) && activity_marker(ls[i])
}

/// Some content line declares a class or draws an inheritance arrow.
pub open spec fn looks_class(src: Seq<char>) -> bool {
    let ls = all_lines(src);
    exists|i: int| 0 <= i < ls.len() && meaningful(#[trigger] ls[i]) && class_marker(ls[i])
}

fn has_marker(source: &str, activity: bool) -> (b: bool)
    ensures
        activity ==> b == looks_activity(source@),
        !activity ==> b == looks_class(source@),
{
    let ls = trimmed_lines(source);
    let ghost lv = seqs(ls@);
    let mut i: usize = 0;
    proof {
        reveal_strlit("start");
        reveal_strlit("stop");
        reveal_strlit("end");
    }
    while i < ls.len()
        invariant
            i <= ls@.len(),
            lv == seqs(ls@),
            lv == all_lines(source@),
            forall|j: int| 0 <= j < i ==> !(meaningful(#[trigger] lv[j]) && (if activity {
                activity_marker(lv[j])
            } else {
                class_marker(lv[j])
            })),
        decreases ls@.len() - i,
    {
        assert(lv[i as int] == ls@[i as int]@);
        let l = ls[i].as_slice();
        let m = !(skip_common_exec(l) || starts_with(l, chars_of("autonumber").as_slice()));
        let hit = if activity {
            crate::text::eq_slice(l, chars_of("start").as_slice()) || crate::text::eq_slice(l, chars_of("stop").as_slice())
                || crate::text::eq_slice(l, chars_of("end").as_slice())
                || (starts_with(l, chars_of(":").as_slice()) && find_slice(l, chars_of("->").as_slice()).is_none())
        } else {
            starts_with(l, chars_of("class ").as_slice()) || starts_with(l, chars_of("interface ").as_slice())
                || starts_with(l, chars_of("enum ").as_slice())
                || find_slice(l, chars_of(" <|-- ").as_slice()).is_some()
                || find_slice(l, chars_of(" --|> ").as_slice()).is_some()
        };
        if m && hit {
            return true;
        }
        i = i + 1;
    }
    false
}

/// The spec of reading a PlantUML document: which reader runs, and its result.
pub open spec fn puml_document_ok(src: Seq<char>, doc: Document) -> bool {
    &&& doc.version == CURRENT_VERSION
    &&& doc.diagrams@.len() == 1
    &&& if looks_activity(src) {
        puml_activity(src) matches Ok(st) && doc.diagrams@[0] matches Diagram::Flowchart(fc) && is_activity_of(fc, st)
    } else if looks_class(src) {
        puml_class(src) matches Ok(c) && doc.diagrams@[0] matches Diagram::Class(x) && cd_v(x) == c
    } else {
        puml_sequence(src) matches Ok(sq) && doc.diagrams@[0] matches Diagram::Sequence(x) && seq_v(x) == sq
    }
}

/// The error reading a PlantUML document gives, if any.
pub open spec fn puml_document_err(src: Seq<char>) -> Option<Seq<char>> {
    if !plantuml_like(src) {
        Some("PlantUML: expected @startuml header"@)
    } else if looks_activity(src) {
        match puml_activity(src) {
            Ok(_) => None,
            Err(m) => Some(m),
        }
    } else if looks_class(src) {
        match puml_class(src) {
            Ok(_) => None,
            Err(m) => Some(m),
        }
    } else {
        match puml_sequence(src) {
            Ok(_) => None,
            Err(m) => Some(m),
        }
    }
}

/// Read PlantUML (activity, class or sequence, judged by its lines) into a
/// one-diagram document.
pub fn parse_to_document(source: &str) -> (r: Result<Document, IrError>)
    ensures
        match puml_document_err(source@) {
            Some(m) => r matches Err(e) && e.message@ == m,
            None => r matches Ok(doc) && puml_document_ok(source@, doc),
        },
{
    if !is_plantuml(source) {
        return Err(IrError::new("PlantUML: expected @startuml header"));
    }
    if has_marker(source, true) {
        let fc = parse_activity(source)?;
        return Ok(Document::single(Diagram::Flowchart(fc)));
    }
    if has_marker(source, false) {
        let c = parse_class(source)?;
        return Ok(Document::single(Diagram::Class(c)));
    }
    let sq = parse_sequence(source)?;
    Ok(Document::single(Diagram::Sequence(sq)))
}


// ---------------------------------------------------------------- export: sequence and class

pub open spec fn escape_quote(s: Seq<char>) -> Seq<char> {
    replace_all(replace_all(s, "\\"@, "\\\\"@), "\""@, "\\\""@)
}

pub open spec fn participant_text(p: (Seq<char>, Seq<char>)) -> Seq<char> {
    let (id, label) = p;
    if label != id {
        if label.contains(' ') {
            "participant \""@ + escape_quote(label) + "\" as "@ + id + "\n"@
        } else {
            "participant "@ + id + " as "@ + label + "\n"@
        }
    } else {
        "participant "@ + id + "\n"@
    }
}

pub open spec fn placement_word(p: NotePlacement) -> Seq<char> {
    match p {
        NotePlacement::LeftOf => "note left of "@,
        NotePlacement::RightOf => "note right of "@,
        NotePlacement::Over => "note over "@,
    }
}

pub open spec fn puml_note_text(n: NoteV) -> Seq<char> {
    placement_word(n.0) + join(n.1, ","@) + "\n"@ + n.2 + "\nend note\n"@
}

/// The notes placed before message `i`, in order.
pub open spec fn notes_at(ns: Seq<NoteV>, i: int) -> Seq<char>
    decreases ns.len(),
{
    if ns.len() == 0 {
        Seq::empty()
    } else {
        notes_at(ns.drop_last(), i) + if ns.last().3 == i { puml_note_text(ns.last()) } else { Seq::empty() }
    }
}

pub open spec fn puml_arrow(a: MessageArrow) -> Seq<char> {
    match a {
        MessageArrow::Solid => "->"@,
        MessageArrow::Dashed => "-->"@,
    }
}

pub open spec fn puml_msg_text(m: (Seq<char>, Seq<char>, Seq<char>, MessageArrow)) -> Seq<char> {
    m.0 + " "@ + puml_arrow(m.3) + " "@ + m.1 + ": "@ + m.2 + "\n"@
}

/// Notes and messages for positions `0..k`.
pub open spec fn seq_timeline(d: SeqV, k: int) -> Seq<char>
    decreases k,
{
    if k <= 0 {
        Seq::empty()
    } else {
        let i = k - 1;
        seq_timeline(d, i) + notes_at(d.notes, i) + if i < d.messages.len() {
            puml_msg_text(d.messages[i])
        } else {
            Seq::empty()
        }
    }
}

/// PlantUML text of a sequence diagram.
pub open spec fn puml_sequence_text(d: SeqV) -> Seq<char> {
    "@startuml\n"@ + flat(d.parts, |p: (Seq<char>, Seq<char>)| participant_text(p)) + seq_timeline(d, d.messages.len() + 1int)
        + "@enduml\n"@
}

pub open spec fn class_keyword(st: Option<Seq<char>>) -> Seq<char> {
    match st {
        Some(s) => if s == "interface"@ {
            "interface"@
        } else if s == "enum"@ || s == "enumeration"@ {
            "enum"@
        } else if s == "abstract"@ {
            "abstract class"@
        } else {
            "class"@
        },
        None => "class"@,
    }
}

pub open spec fn class_angle(st: Option<Seq<char>>) -> Seq<char> {
    match st {
        Some(s) => if s == "interface"@ || s == "enum"@ || s == "enumeration"@ || s == "abstract"@ {
            Seq::empty()
        } else {
            " <<"@ + s + ">>"@
        },
        None => Seq::empty(),
    }
}

pub open spec fn puml_class_text(c: ClassV) -> Seq<char> {
    let head = class_keyword(c.2) + " "@ + c.0 + class_angle(c.2);
    if c.1.len() == 0 {
        head + "\n"@
    } else {
        head + " {\n"@ + flat(c.1, |m: Seq<char>| "  "@ + m + "\n"@) + "}\n"@
    }
}

pub open spec fn puml_relation_text(r: RelV) -> Seq<char> {
    let base = r.0 + " "@ + crate::class::relation_token(r.2) + " "@ + r.1;
    if r.3.len() == 0 {
        base + "\n"@
    } else {
        base + " : "@ + r.3 + "\n"@
    }
}

/// PlantUML text of a class diagram (notes and cardinalities are not written).
pub open spec fn puml_class_diagram_text(d: ClassDiagramV) -> Seq<char> {
    "@startuml\n"@ + flat(d.classes, |c: ClassV| puml_class_text(c)) + flat(d.relations, |r: RelV| puml_relation_text(r))
        + "@enduml\n"@
}


fn escape_quote_exec(s: &str) -> (r: String)
    ensures
        r@ == escape_quote(s@),
{
    let cs = chars_of(s);
    let a = replace_all_exec(cs.as_slice(), "\\", "\\\\");
    let b = replace_all_exec(a.as_slice(), "\"", "\\\"");
    string_of(b.as_slice())
}

fn participant_text_exec(out: &mut String, id: &str, label: &str)
    ensures
        final(out)@ == old(out)@ + participant_text((id@, label@)),
{
    if !str_eq(label, id) {
        let lc = chars_of(label);
        if crate::text::contains_char(lc.as_slice(), ' ') {
            out.append("participant \"");
            out.append(escape_quote_exec(label).as_str());
            out.append("\" as ");
            out.append(id);
            out.append("\n");
        } else {
            out.append("participant ");
            out.append(id);
            out.append(" as ");
            out.append(label);
            out.append("\n");
        }
    } else {
        out.append("participant ");
        out.append(id);
        out.append("\n");
    }
}

fn note_text_exec(out: &mut String, n: &Note)
    ensures
        final(out)@ == old(out)@ + puml_note_text(note_v(*n)),
{
    out.append(match n.placement {
        NotePlacement::LeftOf => "note left of ",
        NotePlacement::RightOf => "note right of ",
        NotePlacement::Over => "note over ",
    });
    out.append(join_strings(&n.actors, ",").as_str());
    out.append("\n");
    out.append(n.text.as_str());
    out.append("\nend note\n");
}

fn notes_at_exec(out: &mut String, ns: &Vec<Note>, i: usize)
    ensures
        final(out)@ == old(out)@ + notes_at(Seq::new(ns@.len(), |k: int| note_v(ns@[k])), i as int),
{
    let ghost nv = Seq::new(ns@.len(), |k: int| note_v(ns@[k]));
    let ghost o0 = out@;
    let mut k: usize = 0;
    assert(nv.take(0) =~= Seq::<NoteV>::empty());
    while k < ns.len()
        invariant
            k <= ns@.len(),
            nv == Seq::new(ns@.len(), |k: int| note_v(ns@[k])),
            out@ == o0 + notes_at(nv.take(k as int), i as int),
        decreases ns@.len() - k,
    {
        assert(nv.take(k + 1).drop_last() =~= nv.take(k as int));
        if ns[k].before_message == i {
            note_text_exec(out, &ns[k]);
        }
        assert(out@ =~= o0 + notes_at(nv.take(k + 1), i as int));
        k = k + 1;
    }
    assert(nv.take(ns@.len() as int) =~= nv);
}

fn export_sequence(d: &SequenceDiagram) -> (r: String)
    ensures
        r@ == puml_sequence_text(seq_v(*d)),
{
    let ghost v = seq_v(*d);
    let ghost f = |p: (Seq<char>, Seq<char>)| participant_text(p);
    let mut out = string_from("@startuml\n");
    let ghost o0 = out@;
    let mut k: usize = 0;
    proof { lemma_flat_all(v.parts, f); }
    while k < d.participants.len()
        invariant
            k <= d.participants@.len(),
            v == seq_v(*d),
            f == (|p: (Seq<char>, Seq<char>)| participant_text(p)),
            out@ == o0 + flat(v.parts.take(k as int), f),
        decreases d.participants@.len() - k,
    {
        proof { lemma_flat_step(v.parts, f, k as int); }
        participant_text_exec(&mut out, d.participants[k].id.as_str(), d.participants[k].label.as_str());
        assert(out@ =~= o0 + flat(v.parts.take(k + 1), f));
        k = k + 1;
    }
    proof { lemma_flat_all(v.parts, f); }
    let ghost o1 = out@;
    assert(o1 =~= "@startuml\n"@ + flat(v.parts, f));
    let m = d.messages.len();
    let mut i: usize = 0;
    while i < m
        invariant
            i <= m,
            m == d.messages@.len(),
            v == seq_v(*d),
            out@ == o1 + seq_timeline(v, i as int),
        decreases m - i,
    {
        notes_at_exec(&mut out, &d.notes, i);
        let msg = &d.messages[i];
        out.append(msg.from.as_str());
        out.append(" ");
        out.append(match msg.arrow {
            MessageArrow::Solid => "->",
            MessageArrow::Dashed => "-->",
        });
        out.append(" ");
        out.append(msg.to.as_str());
        out.append(": ");
        out.append(msg.text.as_str());
        out.append("\n");
        assert(out@ =~= o1 + seq_timeline(v, i + 1));
        i = i + 1;
    }
    notes_at_exec(&mut out, &d.notes, m);
    assert(out@ =~= o1 + seq_timeline(v, m + 1));
    out.append("@enduml\n");
    out
}

fn class_keyword_exec(st: &Option<String>) -> (r: (&'static str, bool))
    ensures
        r.0@ == class_keyword(crate::class::ostr(*st)),
        r.1 == (class_angle(crate::class::ostr(*st)).len() == 0),
{
    proof {
        reveal_strlit("interface");
        reveal_strlit("enum");
        reveal_strlit("enumeration");
        reveal_strlit("abstract");
        reveal_strlit(" <<");
    }
    match st {
        Some(s) => {
            if str_eq(s.as_str(), "interface") {
                ("interface", true)
            } else if str_eq(s.as_str(), "enum") || str_eq(s.as_str(), "enumeration") {
                ("enum", true)
            } else if str_eq(s.as_str(), "abstract") {
                ("abstract class", true)
            } else {
                ("class", false)
            }
        },
        None => ("class", true),
    }
}

fn class_text_exec(out: &mut String, c: &Class)
    ensures
        final(out)@ == old(out)@ + puml_class_text(class_v(*c)),
{
    let ghost cv = class_v(*c);
    let ghost o0 = out@;
    let (kw, plain) = class_keyword_exec(&c.stereotype);
    out.append(kw);
    out.append(" ");
    out.append(c.id.as_str());
    if !plain {
        match &c.stereotype {
            Some(s) => {
                out.append(" <<");
                out.append(s.as_str());
                out.append(">>");
            },
            None => {},
        }
    }
    let ghost head = class_keyword(cv.2) + " "@ + cv.0 + class_angle(cv.2);
    assert(out@ =~= o0 + head);
    if c.members.len() == 0 {
        out.append("\n");
    } else {
        out.append(" {\n");
        let ghost f = |m: Seq<char>| "  "@ + m + "\n"@;
        let ghost o1 = out@;
        let mut k: usize = 0;
        proof { lemma_flat_all(cv.1, f); }
        while k < c.members.len()
            invariant
                k <= c.members@.len(),
                cv == class_v(*c),
                f == (|m: Seq<char>| "  "@ + m + "\n"@),
                out@ == o1 + flat(cv.1.take(k as int), f),
            decreases c.members@.len() - k,
        {
            proof { lemma_flat_step(cv.1, f, k as int); }
            out.append("  ");
            out.append(c.members[k].text.as_str());
            out.append("\n");
            assert(out@ =~= o1 + flat(cv.1.take(k + 1), f));
            k = k + 1;
        }
        proof { lemma_flat_all(cv.1, f); }
        out.append("}\n");
    }
}

fn relation_text_exec(out: &mut String, r: &Relation)
    ensures
        final(out)@ == old(out)@ + puml_relation_text(rel_v(*r)),
{
    out.append(r.from.as_str());
    out.append(" ");
    out.append(r.kind.mermaid_str());
    out.append(" ");
    out.append(r.to.as_str());
    let lc = chars_of(r.label.as_str());
    if lc.len() == 0 {
        out.append("\n");
    } else {
        out.append(" : ");
        out.append(r.label.as_str());
        out.append("\n");
    }
}

fn export_class(d: &ClassDiagram) -> (r: String)
    ensures
        r@ == puml_class_diagram_text(cd_v(*d)),
{
    let ghost v = cd_v(*d);
    let ghost f = |c: ClassV| puml_class_text(c);
    let ghost g = |r: RelV| puml_relation_text(r);
    let mut out = string_from("@startuml\n");
    let ghost o0 = out@;
    proof {
        lemma_flat_all(v.classes, f);
        lemma_flat_all(v.relations, g);
    }
    let mut k: usize = 0;
    while k < d.classes.len()
        invariant
            k <= d.classes@.len(),
            v == cd_v(*d),
            f == (|c: ClassV| puml_class_text(c)),
            out@ == o0 + flat(v.classes.take(k as int), f),
        decreases d.classes@.len() - k,
    {
        proof { lemma_flat_step(v.classes, f, k as int); }
        class_text_exec(&mut out, &d.classes[k]);
        assert(out@ =~= o0 + flat(v.classes.take(k + 1), f));
        k = k + 1;
    }
    let ghost o1 = out@;
    let mut k: usize = 0;
    while k < d.relations.len()
        invariant
            k <= d.relations@.len(),
            v == cd_v(*d),
            g == (|r: RelV| puml_relation_text(r)),
            out@ == o1 + flat(v.relations.take(k as int), g),
        decreases d.relations@.len() - k,
    {
        proof { lemma_flat_step(v.relations, g, k as int); }
        relation_text_exec(&mut out, &d.relations[k]);
        assert(out@ =~= o1 + flat(v.relations.take(k + 1), g));
        k = k + 1;
    }
    out.append("@enduml\n");
    out
}


// ---------------------------------------------------------------- export: activity

/// ASCII case-insensitive equality with a lower-case word.
pub open spec fn eq_ic(t: Seq<char>, w: Seq<char>) -> bool {
    t.len() == w.len() && forall|k: int| 0 <= k < t.len() ==> ascii_lower(#[trigger] t[k]) == w[k]
}

pub open spec fn is_start_node(n: Node) -> bool {
    n.shape == NodeShape::Stadium && eq_ic(n.text@, "start"@)
}

pub open spec fn is_stop_node(n: Node) -> bool {
    n.shape == NodeShape::Stadium && (eq_ic(n.text@, "stop"@) || eq_ic(n.text@, "end"@))
}

/// Edges leaving `id`, in order.
pub open spec fn out_edges(es: Seq<Edge>, id: Seq<char>) -> Seq<Edge>
    decreases es.len(),
{
    if es.len() == 0 {
        Seq::empty()
    } else {
        let prev = out_edges(es.drop_last(), id);
        if es.last().from@ == id {
            prev.push(es.last())
        } else {
            prev
        }
    }
}

pub open spec fn targets(es: Seq<Edge>) -> Seq<Seq<char>> {
    Seq::new(es.len(), |k: int| es[k].to@)
}

pub open spec fn ids_of(ns: Seq<Node>) -> Seq<Seq<char>> {
    Seq::new(ns.len(), |k: int| ns[k].id@)
}

/// How many node ids are not yet visited.
pub open spec fn unvisited(ids: Seq<Seq<char>>, vis: Seq<Seq<char>>) -> nat
    decreases ids.len(),
{
    if ids.len() == 0 {
        0
    } else {
        unvisited(ids.drop_last(), vis) + if vis.contains(ids.last()) { 0nat } else { 1nat }
    }
}

pub proof fn lemma_unvisited_mono(ids: Seq<Seq<char>>, a: Seq<Seq<char>>, b: Seq<Seq<char>>)
    requires
        forall|x: Seq<char>| a.contains(x) ==> b.contains(x),
    ensures
        unvisited(ids, b) <= unvisited(ids, a),
    decreases ids.len(),
{
    if ids.len() > 0 {
        lemma_unvisited_mono(ids.drop_last(), a, b);
    }
}

pub proof fn lemma_unvisited_push(ids: Seq<Seq<char>>, vis: Seq<Seq<char>>, x: Seq<char>)
    requires
        ids.contains(x),
        !vis.contains(x),
    ensures
        unvisited(ids, vis.push(x)) < unvisited(ids, vis),
    decreases ids.len(),
{
    assert forall|y: Seq<char>| vis.contains(y) implies vis.push(x).contains(y) by {
        let j = choose|j: int| 0 <= j < vis.len() && vis[j] == y;
        assert(vis.push(x)[j] == y);
    }
    assert(vis.push(x).contains(x)) by {
        assert(vis.push(x)[vis.len() as int] == x);
    }
    lemma_unvisited_mono(ids.drop_last(), vis, vis.push(x));
    if ids.last() != x {
        let j = choose|j: int| 0 <= j < ids.len() && ids[j] == x;
        assert(ids.drop_last()[j] == x);
        lemma_unvisited_push(ids.drop_last(), vis, x);
        assert(vis.push(x).contains(ids.last()) ==> vis.contains(ids.last())) by {
            if vis.push(x).contains(ids.last()) {
                let j = choose|j: int| 0 <= j < vis.push(x).len() && vis.push(x)[j] == ids.last();
                assert(j < vis.len());
                assert(vis[j] == ids.last());
            }
        }
    }
}

/// Nodes after `id` along single outgoing edges, up to a decision or a stop.
pub open spec fn chain_from(fc: FcDiagram, id: Seq<char>, fuel: nat) -> Seq<Seq<char>>
    decreases fuel,
{
    if fuel == 0 {
        Seq::empty()
    } else {
        let outs = out_edges(fc.edges@, id);
        if outs.len() != 1 {
            Seq::empty()
        } else {
            let next = outs[0].to@;
            match first(fc.nodes@, node_is(next)) {
                None => Seq::empty(),
                Some(k) => {
                    let nn = fc.nodes@[k];
                    if nn.shape == NodeShape::Diamond || is_stop_node(nn) {
                        Seq::empty()
                    } else {
                        seq![next] + chain_from(fc, next, (fuel - 1) as nat)
                    }
                },
            }
        }
    }
}

/// The straight run of a branch, from its first node (walked at most as many
/// steps as there are nodes).
pub open spec fn branch_nodes(fc: FcDiagram, start: Seq<char>) -> Seq<Seq<char>> {
    seq![start] + chain_from(fc, start, fc.nodes@.len())
}

/// The first of `ys` that is also in `zs`.
pub open spec fn first_shared(ys: Seq<Seq<char>>, zs: Seq<Seq<char>>) -> Option<Seq<char>>
    decreases ys.len(),
{
    if ys.len() == 0 {
        None
    } else if zs.contains(ys[0]) {
        Some(ys[0])
    } else {
        first_shared(ys.drop_first(), zs)
    }
}

/// Where the two branches of a decision meet.
pub open spec fn branch_merge(fc: FcDiagram, yes: Seq<char>, no: Seq<char>) -> Option<Seq<char>> {
    first_shared(branch_nodes(fc, yes), branch_nodes(fc, no))
}

pub type StepOut = Result<(Seq<char>, Seq<Seq<char>>), Seq<char>>;

/// The activity text from node `id`, stopping at `stop`; with the visited ids.
pub open spec fn steps(fc: FcDiagram, id: Seq<char>, vis: Seq<Seq<char>>, stop: Option<Seq<char>>) -> StepOut
    decreases unvisited(ids_of(fc.nodes@), vis), 1nat, 0nat,
{
    if stop == Some(id) || vis.contains(id) {
        Ok((Seq::empty(), vis))
    } else {
        let vis1 = vis.push(id);
        match first(fc.nodes@, node_is(id)) {
            None => Err("activity export: unknown node '"@ + id + "'"@),
            Some(k) => {
                proof {
                    crate::text::lemma_first_from(fc.nodes@, node_is(id), 0);
                    assert(ids_of(fc.nodes@)[k] == id);
                    lemma_unvisited_push(ids_of(fc.nodes@), vis, id);
                }
                let node = fc.nodes@[k];
                let outs = out_edges(fc.edges@, id);
                if is_start_node(node) {
                    steps_list(fc, targets(outs), 0, vis1, stop)
                } else if is_stop_node(node) {
                    Ok(("stop\n"@, vis1))
                } else if node.shape == NodeShape::Diamond {
                    if outs.len() != 2 {
                        Err("activity export: decision nodes must have exactly two outgoing branches"@)
                    } else {
                        let t = outs[0];
                        let e = outs[1];
                        let merge = branch_merge(fc, t.to@, e.to@);
                        match steps(fc, t.to@, vis1, merge) {
                            Err(m) => Err(m),
                            Ok((o1, yes)) => match steps(fc, e.to@, vis1, merge) {
                                Err(m) => Err(m),
                                Ok((o2, no)) => {
                                    let vis2 = vis1 + yes + no;
                                    let head = "if ("@ + node.text@ + ") then ("@ + t.label@ + ")\n"@ + o1 + "else ("@
                                        + e.label@ + ")\n"@ + o2 + "endif\n"@;
                                    proof {
                                        assert forall|x: Seq<char>| vis1.contains(x) implies vis2.contains(x) by {
                                            let j = choose|j: int| 0 <= j < vis1.len() && vis1[j] == x;
                                            assert(vis2[j] == x);
                                        }
                                        lemma_unvisited_mono(ids_of(fc.nodes@), vis1, vis2);
                                    }
                                    match merge {
                                        Some(m) => if !vis2.contains(m) {
                                            match steps(fc, m, vis2, None) {
                                                Ok((o3, v3)) => Ok((head + o3, v3)),
                                                Err(x) => Err(x),
                                            }
                                        } else {
                                            Ok((head, vis2))
                                        },
                                        None => Ok((head, vis2)),
                                    }
                                },
                            },
                        }
                    }
                } else {
                    let line = ":"@ + node.text@ + ";\n"@;
                    if outs.len() == 0 {
                        Ok((line, vis1))
                    } else if outs.len() == 1 {
                        if stop == Some(outs[0].to@) {
                            Ok((line, vis1))
                        } else {
                            match steps(fc, outs[0].to@, vis1, stop) {
                                Ok((o, v)) => Ok((line + o, v)),
                                Err(m) => Err(m),
                            }
                        }
                    } else {
                        Err("activity export: node '"@ + node.id@ + "' has multiple outgoing edges"@)
                    }
                }
            },
        }
    }
}

/// The activity text from each of `ts[k..]` in turn, sharing what was visited.
pub open spec fn steps_list(fc: FcDiagram, ts: Seq<Seq<char>>, k: int, vis: Seq<Seq<char>>, stop: Option<Seq<char>>) -> StepOut
    decreases unvisited(ids_of(fc.nodes@), vis), 2nat, (if 0 <= k <= ts.len() { ts.len() - k } else { 0 }) as nat,
{
    if k < 0 || k >= ts.len() {
        Ok((Seq::empty(), vis))
    } else {
        match steps(fc, ts[k], vis, stop) {
            Err(m) => Err(m),
            Ok((o, v)) => {
                let vis2 = vis + v;
                proof {
                    assert forall|x: Seq<char>| vis.contains(x) implies vis2.contains(x) by {
                        let j = choose|j: int| 0 <= j < vis.len() && vis[j] == x;
                        assert(vis2[j] == x);
                    }
                    lemma_unvisited_mono(ids_of(fc.nodes@), vis, vis2);
                }
                match steps_list(fc, ts, k + 1, vis2, stop) {
                    Ok((o2, v2)) => Ok((o + o2, v2)),
                    Err(m) => Err(m),
                }
            },
        }
    }
}

/// Whether a flowchart has a `start` stadium node.
pub open spec fn activity_exportable(fc: FcDiagram) -> bool {
    exists|k: int| 0 <= k < fc.nodes@.len() && is_start_node(#[trigger] fc.nodes@[k])
}

pub open spec fn start_is() -> spec_fn(Node) -> bool {
    |n: Node| is_start_node(n)
}

/// PlantUML activity text of a flowchart, walked from its first `start` node.
pub open spec fn puml_activity_text(fc: FcDiagram) -> Result<Seq<char>, Seq<char>> {
    match first(fc.nodes@, start_is()) {
        None => Err("activity export: missing start node"@),
        Some(k) => match steps_list(fc, targets(out_edges(fc.edges@, fc.nodes@[k].id@)), 0, Seq::empty(), None) {
            Ok((o, _)) => Ok("@startuml\nstart\n"@ + o + "@enduml\n"@),
            Err(m) => Err(m),
        },
    }
}


fn eq_ic_exec(t: &[char], w: &str) -> (b: bool)
    ensures
        b == eq_ic(t@, w@),
{
    let wc = chars_of(w);
    if t.len() != wc.len() {
        return false;
    }
    let mut k: usize = 0;
    while k < t.len()
        invariant
            k <= t@.len(),
            t@.len() == wc@.len(),
            wc@ == w@,
            forall|j: int| 0 <= j < k ==> ascii_lower(#[trigger] t@[j]) == w@[j],
        decreases t@.len() - k,
    {
        if lower_char(t[k]) != wc[k] {
            return false;
        }
        k = k + 1;
    }
    true
}

fn is_start_exec(n: &Node) -> (b: bool)
    ensures
        b == is_start_node(*n),
{
    let t = chars_of(n.text.as_str());
    n.shape == NodeShape::Stadium && eq_ic_exec(t.as_slice(), "start")
}

fn is_stop_exec(n: &Node) -> (b: bool)
    ensures
        b == is_stop_node(*n),
{
    let t = chars_of(n.text.as_str());
    n.shape == NodeShape::Stadium && (eq_ic_exec(t.as_slice(), "stop") || eq_ic_exec(t.as_slice(), "end"))
}

pub open spec fn picked(es: Seq<Edge>, r: Seq<usize>) -> Seq<Edge> {
    Seq::new(r.len(), |j: int| es[r[j] as int])
}

/// Indices of the edges leaving `id`.
fn out_edges_exec(es: &Vec<Edge>, id: &str) -> (r: Vec<usize>)
    ensures
        forall|j: int| 0 <= j < r@.len() ==> (#[trigger] r@[j]) < es@.len(),
        picked(es@, r@) == out_edges(es@, id@),
{
    let mut r: Vec<usize> = Vec::new();
    let mut i: usize = 0;
    assert(es@.take(0) =~= Seq::<Edge>::empty());
    while i < es.len()
        invariant
            i <= es@.len(),
            forall|j: int| 0 <= j < r@.len() ==> (#[trigger] r@[j]) < i,
            picked(es@, r@) == out_edges(es@.take(i as int), id@),
        decreases es@.len() - i,
    {
        assert(es@.take(i + 1).drop_last() =~= es@.take(i as int));
        assert(es@.take(i + 1).last() == es@[i as int]);
        if str_eq(es[i].from.as_str(), id) {
            let ghost before = picked(es@, r@);
            r.push(i);
            assert(picked(es@, r@) =~= before.push(es@[i as int]));
        }
        i = i + 1;
    }
    assert(es@.take(es@.len() as int) =~= es@);
    r
}

fn vis_contains(v: &Vec<String>, id: &str) -> (b: bool)
    ensures
        b == views(v@).contains(id@),
{
    let mut k: usize = 0;
    while k < v.len()
        invariant
            k <= v@.len(),
            forall|j: int| 0 <= j < k ==> (#[trigger] views(v@)[j]) != id@,
        decreases v@.len() - k,
    {
        if str_eq(v[k].as_str(), id) {
            assert(views(v@)[k as int] == id@);
            return true;
        }
        k = k + 1;
    }
    false
}

fn extend_strings(a: &mut Vec<String>, b: &Vec<String>)
    ensures
        views(final(a)@) == views(old(a)@) + views(b@),
{
    let ghost a0 = views(a@);
    let mut k: usize = 0;
    while k < b.len()
        invariant
            k <= b@.len(),
            views(a@) == a0 + views(b@).take(k as int),
        decreases b@.len() - k,
    {
        let ghost before = views(a@);
        let x = string_from(b[k].as_str());
        a.push(x);
        assert(views(a@) =~= before.push(b@[k as int]@));
        assert(views(b@).take(k + 1) =~= views(b@).take(k as int).push(b@[k as int]@));
        assert(views(a@) =~= a0 + views(b@).take(k + 1));
        k = k + 1;
    }
    assert(views(b@).take(b@.len() as int) =~= views(b@));
}

fn find_node_ref<'a>(fc: &'a FcDiagram, id: &str) -> (r: Option<&'a Node>)
    ensures
        match first(fc.nodes@, node_is(id@)) {
            Some(k) => r == Some(&fc.nodes@[k]),
            None => r is None,
        },
{
    match crate::diagram::find_node(&fc.nodes, id) {
        Some(k) => Some(&fc.nodes[k]),
        None => None,
    }
}

fn branch_nodes_exec(fc: &FcDiagram, start: &str) -> (r: Vec<String>)
    ensures
        views(r@) == branch_nodes(*fc, start@),
{
    let mut r: Vec<String> = vec![string_from(start)];
    let mut id = string_from(start);
    let mut fuel: usize = fc.nodes.len();
    assert(views(r@) =~= seq![start@]);
    loop
        invariant
            fuel <= fc.nodes@.len(),
            views(r@) + chain_from(*fc, id@, fuel as nat) == branch_nodes(*fc, start@),
        decreases fuel,
    {
        if fuel == 0 {
            assert(views(r@) + chain_from(*fc, id@, 0) =~= views(r@));
            return r;
        }
        let outs = out_edges_exec(&fc.edges, id.as_str());
        if outs.len() != 1 {
            assert(views(r@) + chain_from(*fc, id@, fuel as nat) =~= views(r@));
            return r;
        }
        assert(picked(fc.edges@, outs@)[0] == fc.edges@[outs@[0] as int]);
        let next = string_from(fc.edges[outs[0]].to.as_str());
        match find_node_ref(fc, next.as_str()) {
            None => {
                assert(views(r@) + chain_from(*fc, id@, fuel as nat) =~= views(r@));
                return r;
            },
            Some(nn) => {
                if nn.shape == NodeShape::Diamond || is_stop_exec(nn) {
                    assert(views(r@) + chain_from(*fc, id@, fuel as nat) =~= views(r@));
                    return r;
                }
                let ghost before = views(r@);
                r.push(string_from(next.as_str()));
                assert(views(r@) =~= before.push(next@));
                assert(before + chain_from(*fc, id@, fuel as nat) =~= views(r@) + chain_from(*fc, next@, (fuel - 1) as nat));
                id = next;
                fuel = fuel - 1;
            },
        }
    }
}

fn branch_merge_exec(fc: &FcDiagram, yes: &str, no: &str) -> (r: Option<String>)
    ensures
        match branch_merge(*fc, yes@, no@) {
            Some(m) => r matches Some(x) && x@ == m,
            None => r is None,
        },
{
    let ys = branch_nodes_exec(fc, yes);
    let zs = branch_nodes_exec(fc, no);
    let ghost yv = views(ys@);
    let mut k: usize = 0;
    assert(yv.subrange(0, yv.len() as int) =~= yv);
    while k < ys.len()
        invariant
            k <= ys@.len(),
            yv == views(ys@),
            yv == branch_nodes(*fc, yes@),
            views(zs@) == branch_nodes(*fc, no@),
            first_shared(yv, views(zs@)) == first_shared(yv.subrange(k as int, yv.len() as int), views(zs@)),
        decreases ys@.len() - k,
    {
        assert(yv.subrange(k as int, yv.len() as int).drop_first() =~= yv.subrange(k + 1, yv.len() as int));
        assert(yv.subrange(k as int, yv.len() as int)[0] == yv[k as int]);
        assert(yv[k as int] == ys@[k as int]@);
        if vis_contains(&zs, ys[k].as_str()) {
            return Some(string_from(ys[k].as_str()));
        }
        k = k + 1;
    }
    None
}

pub open spec fn optv(o: Option<&str>) -> Option<Seq<char>> {
    match o {
        Some(s) => Some(s@),
        None => None,
    }
}

proof fn lemma_contains_append(a: Seq<Seq<char>>, b: Seq<Seq<char>>)
    ensures
        forall|x: Seq<char>| a.contains(x) ==> (a + b).contains(x),
{
    assert forall|x: Seq<char>| a.contains(x) implies (a + b).contains(x) by {
        let j = choose|j: int| 0 <= j < a.len() && a[j] == x;
        assert((a + b)[j] == x);
    }
}

/// What `steps` gives at a decision node `node` with id `id`, `vis1` already
/// holding `id`.
pub open spec fn decision(fc: FcDiagram, id: Seq<char>, node: Node, vis1: Seq<Seq<char>>) -> StepOut {
    let outs = out_edges(fc.edges@, id);
    if outs.len() != 2 {
        Err("activity export: decision nodes must have exactly two outgoing branches"@)
    } else {
        let t = outs[0];
        let e = outs[1];
        let merge = branch_merge(fc, t.to@, e.to@);
        match steps(fc, t.to@, vis1, merge) {
            Err(m) => Err(m),
            Ok((o1, yes)) => match steps(fc, e.to@, vis1, merge) {
                Err(m) => Err(m),
                Ok((o2, no)) => {
                    let vis2 = vis1 + yes + no;
                    let head = "if ("@ + node.text@ + ") then ("@ + t.label@ + ")\n"@ + o1 + "else ("@ + e.label@
                        + ")\n"@ + o2 + "endif\n"@;
                    match merge {
                        Some(m) => if !vis2.contains(m) {
                            match steps(fc, m, vis2, None) {
                                Ok((o3, v3)) => Ok((head + o3, v3)),
                                Err(x) => Err(x),
                            }
                        } else {
                            Ok((head, vis2))
                        },
                        None => Ok((head, vis2)),
                    }
                },
            },
        }
    }
}

proof fn lemma_steps_decision(fc: FcDiagram, id: Seq<char>, vis: Seq<Seq<char>>, stop: Option<Seq<char>>, k: int)
    requires
        !(stop == Some(id)),
        !vis.contains(id),
        first(fc.nodes@, node_is(id)) == Some(k),
        fc.nodes@[k].shape == NodeShape::Diamond,
        !is_start_node(fc.nodes@[k]),
        !is_stop_node(fc.nodes@[k]),
    ensures
        steps(fc, id, vis, stop) == decision(fc, id, fc.nodes@[k], vis.push(id)),
{
}

/// The `if ... else ... endif` block of decision node `node` (already marked visited).
#[verifier::rlimit(40)]
fn decision_exec(
    fc: &FcDiagram,
    id: &str,
    node: &Node,
    Ghost(vis): Ghost<Seq<Seq<char>>>,
    visited: &mut Vec<String>,
    stop: Option<&str>,
    out: &mut String,
) -> (r: Result<(), IrError>)
    requires
        !(optv(stop) == Some(id@)),
        !vis.contains(id@),
        first(fc.nodes@, node_is(id@)) matches Some(k) && fc.nodes@[k] == *node,
        node.shape == NodeShape::Diamond,
        !is_start_node(*node),
        !is_stop_node(*node),
        views(old(visited)@) == vis.push(id@),
        unvisited(ids_of(fc.nodes@), vis.push(id@)) < unvisited(ids_of(fc.nodes@), vis),
    ensures
        match steps(*fc, id@, vis, optv(stop)) {
            Ok((o, v)) => r is Ok && final(out)@ == old(out)@ + o && views(final(visited)@) == v,
            Err(m) => r matches Err(e) && e.message@ == m,
        },
    decreases unvisited(ids_of(fc.nodes@), views(old(visited)@)), 3nat, 0nat,
{
    proof {
        let k = first(fc.nodes@, node_is(id@)).unwrap();
        lemma_steps_decision(*fc, id@, vis, optv(stop), k);
    }
    let ghost vis1 = vis.push(id@);
    let ghost o0 = out@;
    let outs = out_edges_exec(&fc.edges, id);
    let ghost ov = out_edges(fc.edges@, id@);
    if outs.len() != 2 {
        return Err(IrError::new("activity export: decision nodes must have exactly two outgoing branches"));
    }
    let t = &fc.edges[outs[0]];
    let e = &fc.edges[outs[1]];
    assert(ov[0] == *t && ov[1] == *e);
    out.append("if (");
    out.append(node.text.as_str());
    out.append(") then (");
    out.append(t.label.as_str());
    out.append(")\n");
    let merge = branch_merge_exec(fc, t.to.as_str(), e.to.as_str());
    let mstop: Option<&str> = match &merge {
        Some(m) => Some(m.as_str()),
        None => None,
    };
    let mut yes = crate::text::clone_strings(visited);
    assert(views(yes@) == vis1);
    steps_exec(fc, t.to.as_str(), &mut yes, mstop, out)?;
    out.append("else (");
    out.append(e.label.as_str());
    out.append(")\n");
    let mut no = crate::text::clone_strings(visited);
    assert(views(no@) == vis1);
    steps_exec(fc, e.to.as_str(), &mut no, mstop, out)?;
    out.append("endif\n");
    extend_strings(visited, &yes);
    extend_strings(visited, &no);
    proof {
        lemma_contains_append(vis1, views(yes@));
        lemma_contains_append(vis1 + views(yes@), views(no@));
        lemma_unvisited_mono(ids_of(fc.nodes@), vis1, views(visited@));
    }
    match mstop {
        Some(m) => {
            if !vis_contains(visited, m) {
                return steps_exec(fc, m, visited, None, out);
            }
            Ok(())
        },
        None => Ok(()),
    }
}

/// Targets of the edges leaving `id`.
fn targets_exec(fc: &FcDiagram, id: &str) -> (ts: Vec<String>)
    ensures
        views(ts@) == targets(out_edges(fc.edges@, id@)),
{
    let outs = out_edges_exec(&fc.edges, id);
    let ghost ov = out_edges(fc.edges@, id@);
    let mut ts: Vec<String> = Vec::new();
    let mut j: usize = 0;
    while j < outs.len()
        invariant
            j <= outs@.len(),
            ov == picked(fc.edges@, outs@),
            forall|q: int| 0 <= q < outs@.len() ==> (#[trigger] outs@[q]) < fc.edges@.len(),
            views(ts@) == targets(ov).take(j as int),
        decreases outs@.len() - j,
    {
        let ghost before = views(ts@);
        let x = string_from(fc.edges[outs[j]].to.as_str());
        assert(ov[j as int] == fc.edges@[outs@[j as int] as int]);
        ts.push(x);
        assert(views(ts@) =~= before.push(targets(ov)[j as int]));
        assert(targets(ov).take(j + 1) =~= targets(ov).take(j as int).push(targets(ov)[j as int]));
        j = j + 1;
    }
    assert(targets(ov).take(outs@.len() as int) =~= targets(ov));
    ts
}

fn steps_exec(fc: &FcDiagram, id: &str, visited: &mut Vec<String>, stop: Option<&str>, out: &mut String) -> (r: Result<(), IrError>)
    ensures
        match steps(*fc, id@, views(old(visited)@), optv(stop)) {
            Ok((o, v)) => r is Ok && final(out)@ == old(out)@ + o && views(final(visited)@) == v,
            Err(m) => r matches Err(e) && e.message@ == m,
        },
    decreases unvisited(ids_of(fc.nodes@), views(old(visited)@)), 1nat, 0nat,
{
    let ghost vis = views(visited@);
    let ghost o0 = out@;
    let at_stop = match stop {
        Some(s) => str_eq(s, id),
        None => false,
    };
    if at_stop || vis_contains(visited, id) {
        assert(out@ =~= o0 + Seq::<char>::empty());
        return Ok(());
    }
    let ghost vis1 = vis.push(id@);
    let node = match find_node_ref(fc, id) {
        None => {
            let mut m = string_from("activity export: unknown node '");
            m.append(id);
            m.append("'");
            return Err(IrError { message: m });
        },
        Some(n) => n,
    };
    proof {
        let k = first(fc.nodes@, node_is(id@)).unwrap();
        crate::text::lemma_first_from(fc.nodes@, node_is(id@), 0);
        assert(ids_of(fc.nodes@)[k] == id@);
        lemma_unvisited_push(ids_of(fc.nodes@), vis, id@);
    }
    visited.push(string_from(id));
    assert(views(visited@) =~= vis1);
    let outs = out_edges_exec(&fc.edges, id);
    let ghost ov = out_edges(fc.edges@, id@);
    if is_start_exec(node) {
        let ts = targets_exec(fc, id);
        return steps_list_exec(fc, &ts, 0, visited, stop, out);
    }
    if is_stop_exec(node) {
        out.append("stop\n");
        return Ok(());
    }
    if node.shape == NodeShape::Diamond {
        decision_exec(fc, id, node, Ghost(vis), visited, stop, out)
    } else {
        out.append(":");
        out.append(node.text.as_str());
        out.append(";\n");
        if outs.len() == 0 {
            Ok(())
        } else if outs.len() == 1 {
            let nx = fc.edges[outs[0]].to.as_str();
            assert(ov[0] == fc.edges@[outs@[0] as int]);
            let halt = match stop {
                Some(s) => str_eq(s, nx),
                None => false,
            };
            if halt {
                Ok(())
            } else {
                steps_exec(fc, nx, visited, stop, out)
            }
        } else {
            let mut m = string_from("activity export: node '");
            m.append(node.id.as_str());
            m.append("' has multiple outgoing edges");
            Err(IrError { message: m })
        }
    }
}

fn steps_list_exec(fc: &FcDiagram, ts: &Vec<String>, k: usize, visited: &mut Vec<String>, stop: Option<&str>, out: &mut String) -> (r: Result<(), IrError>)
    requires
        k <= ts@.len(),
    ensures
        match steps_list(*fc, views(ts@), k as int, views(old(visited)@), optv(stop)) {
            Ok((o, v)) => r is Ok && final(out)@ == old(out)@ + o && views(final(visited)@) == v,
            Err(m) => r matches Err(e) && e.message@ == m,
        },
    decreases unvisited(ids_of(fc.nodes@), views(old(visited)@)), 2nat, (ts@.len() - k) as nat,
{
    if k >= ts.len() {
        assert(out@ =~= out@ + Seq::<char>::empty());
        return Ok(());
    }
    let ghost vis = views(visited@);
    let mut tmp = crate::text::clone_strings(visited);
    steps_exec(fc, ts[k].as_str(), &mut tmp, stop, out)?;
    extend_strings(visited, &tmp);
    proof {
        lemma_contains_append(vis, views(tmp@));
        lemma_unvisited_mono(ids_of(fc.nodes@), vis, views(visited@));
    }
    steps_list_exec(fc, ts, k + 1, visited, stop, out)
}

fn export_activity(fc: &FcDiagram) -> (r: Result<String, IrError>)
    ensures
        match puml_activity_text(*fc) {
            Ok(t) => r matches Ok(s) && s@ == t,
            Err(m) => r matches Err(e) && e.message@ == m,
        },
{
    let mut k: usize = 0;
    while k < fc.nodes.len() && !is_start_exec(&fc.nodes[k])
        invariant
            k <= fc.nodes@.len(),
            forall|j: int| 0 <= j < k ==> !is_start_node(#[trigger] fc.nodes@[j]),
        decreases fc.nodes@.len() - k,
    {
        k = k + 1;
    }
    proof { crate::text::lemma_first_from(fc.nodes@, start_is(), 0); }
    if k == fc.nodes.len() {
        return Err(IrError::new("activity export: missing start node"));
    }
    proof {
        match first(fc.nodes@, start_is()) {
            Some(k2) => {
                if k2 < k {
                    assert(!is_start_node(fc.nodes@[k2]));
                }
                if k2 > k {
                    assert(!start_is()(fc.nodes@[k as int]));
                }
            },
            None => {
                assert(!start_is()(fc.nodes@[k as int]));
            },
        }
    }
    let ts = targets_exec(fc, fc.nodes[k].id.as_str());
    let mut out = string_from("@startuml\nstart\n");
    let mut visited: Vec<String> = Vec::new();
    assert(views(visited@) =~= Seq::<Seq<char>>::empty());
    let ghost o0 = out@;
    steps_list_exec(fc, &ts, 0, &mut visited, None, &mut out)?;
    out.append("@enduml\n");
    Ok(out)
}


/// Whether a flowchart has a `start` stadium node, so that it reads as an activity.
pub fn is_activity_exportable(fc: &FcDiagram) -> (b: bool)
    ensures
        b == activity_exportable(*fc),
{
    let mut k: usize = 0;
    while k < fc.nodes.len()
        invariant
            k <= fc.nodes@.len(),
            forall|j: int| 0 <= j < k ==> !is_start_node(#[trigger] fc.nodes@[j]),
        decreases fc.nodes@.len() - k,
    {
        if is_start_exec(&fc.nodes[k]) {
            return true;
        }
        k = k + 1;
    }
    false
}

/// Which diagrams PlantUML export writes.
pub open spec fn puml_supported(d: Diagram) -> bool {
    match d {
        Diagram::Sequence(_) => true,
        Diagram::Class(_) => true,
        Diagram::Flowchart(fc) => activity_exportable(fc),
        _ => false,
    }
}

pub open spec fn puml_diagram_text(d: Diagram) -> Result<Seq<char>, Seq<char>> {
    match d {
        Diagram::Sequence(sq) => Ok(puml_sequence_text(seq_v(sq))),
        Diagram::Class(c) => Ok(puml_class_diagram_text(cd_v(c))),
        Diagram::Flowchart(fc) => puml_activity_text(fc),
        _ => Err("PlantUML export: unsupported diagram kind"@),
    }
}

/// Blocks of the first `n` diagrams that PlantUML writes, each after a
/// `' diagram i: kind` line when `multi`.
pub open spec fn puml_blocks(ds: Seq<Diagram>, n: int, multi: bool) -> Result<Seq<Seq<char>>, Seq<char>>
    decreases n,
{
    if n <= 0 {
        Ok(Seq::empty())
    } else {
        match puml_blocks(ds, n - 1, multi) {
            Err(e) => Err(e),
            Ok(bs) => if puml_supported(ds[n - 1]) {
                match puml_diagram_text(ds[n - 1]) {
                    Ok(t) => Ok(bs.push((if multi {
                        "' diagram "@ + decimal((n - 1) as nat) + ": "@ + kind_name(kind_of(ds[n - 1])) + "\n"@
                    } else {
                        Seq::empty()
                    }) + t)),
                    Err(e) => Err(e),
                }
            } else {
                Ok(bs)
            },
        }
    }
}

/// PlantUML text of a document: its supported diagrams, blank-line separated.
pub open spec fn puml_document_text(ds: Seq<Diagram>) -> Result<Seq<char>, Seq<char>> {
    if forall|i: int| 0 <= i < ds.len() ==> !puml_supported(#[trigger] ds[i]) {
        Err("PlantUML export supports sequence, class, and activity-shaped flowchart diagrams"@)
    } else {
        match puml_blocks(ds, ds.len() as int, ds.len() > 1) {
            Ok(bs) => Ok(join(bs, "\n\n"@)),
            Err(e) => Err(e),
        }
    }
}

proof fn lemma_blocks_err(ds: Seq<Diagram>, i: int, m: int, multi: bool)
    requires
        i <= m,
        puml_blocks(ds, i, multi) is Err,
    ensures
        puml_blocks(ds, m, multi) == puml_blocks(ds, i, multi),
    decreases m - i,
{
    if m > i {
        lemma_blocks_err(ds, i, m - 1, multi);
    }
}

fn supported_exec(d: &Diagram) -> (b: bool)
    ensures
        b == puml_supported(*d),
{
    match d {
        Diagram::Sequence(_) => true,
        Diagram::Class(_) => true,
        Diagram::Flowchart(fc) => is_activity_exportable(fc),
        _ => false,
    }
}

fn export_diagram(d: &Diagram) -> (r: Result<String, IrError>)
    ensures
        match puml_diagram_text(*d) {
            Ok(t) => r matches Ok(s) && s@ == t,
            Err(m) => r matches Err(e) && e.message@ == m,
        },
{
    match d {
        Diagram::Sequence(sq) => Ok(export_sequence(sq)),
        Diagram::Class(c) => Ok(export_class(c)),
        Diagram::Flowchart(fc) => export_activity(fc),
        _ => Err(IrError::new("PlantUML export: unsupported diagram kind")),
    }
}

/// PlantUML text of a document (sequence, class and activity-shaped flowcharts).
pub fn export_document(doc: &Document) -> (r: Result<String, IrError>)
    ensures
        match puml_document_text(doc.diagrams@) {
            Ok(t) => r matches Ok(s) && s@ == t,
            Err(m) => r matches Err(e) && e.message@ == m,
        },
{
    let ds = &doc.diagrams;
    let n = ds.len();
    let mut any = false;
    let mut k: usize = 0;
    while k < n
        invariant
            k <= n == ds@.len(),
            any == exists|j: int| 0 <= j < k && puml_supported(#[trigger] ds@[j]),
        decreases n - k,
    {
        if supported_exec(&ds[k]) {
            any = true;
        }
        k = k + 1;
    }
    if !any {
        return Err(IrError::new("PlantUML export supports sequence, class, and activity-shaped flowchart diagrams"));
    }
    let multi = n > 1;
    let mut blocks: Vec<String> = Vec::new();
    assert(views(blocks@) =~= Seq::<Seq<char>>::empty());
    let mut i: usize = 0;
    while i < n
        invariant
            i <= n == ds@.len(),
            multi == (n > 1),
            ds@ == doc.diagrams@,
            exists|j: int| 0 <= j < n && puml_supported(#[trigger] ds@[j]),
            puml_blocks(ds@, i as int, multi) == Ok::<Seq<Seq<char>>, Seq<char>>(views(blocks@)),
        decreases n - i,
    {
        let d = &ds[i];
        if supported_exec(d) {
            let t = match export_diagram(d) {
                Ok(t) => t,
                Err(e) => {
                    proof { lemma_blocks_err(ds@, i + 1, n as int, multi); }
                    return Err(e);
                },
            };
            let mut block = String::new();
            if multi {
                block.append("' diagram ");
                push_decimal(&mut block, i);
                block.append(": ");
                block.append(d.kind().as_str());
                block.append("\n");
            }
            block.append(t.as_str());
            let ghost before = views(blocks@);
            blocks.push(block);
            assert(views(blocks@) =~= before.push(block@));
        }
        i = i + 1;
    }
    Ok(join_strings(&blocks, "\n\n"))
}

} // verus!
