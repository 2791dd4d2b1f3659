//! Mermaid sequence diagrams: model, parser and Mermaid output.

use vstd::prelude::*;
use crate::text::{
    flat, lemma_flat_step, lemma_flat_all, join, join_strings, push_chars,
    chars_of, eq_slice, keep_content, kept_numbered, lines, nonempty_trimmed, numbered,
    numbered_lines, slice_to_vec, split_char, split_once, split_once_exec, split_trim_nonempty,
    starts_with, string_of, strip_prefix, strip_prefix_exec, trim, trim_slice, trim_start,
    views, lemma_trim_idempotent,
};

verus! {

#[derive(Clone, Copy, Debug, PartialEq, Eq, Structural)]
pub enum MessageArrow {
    /// `->>`
    Solid,
    /// `-->>`
    Dashed,
}

impl Default for MessageArrow {
    fn default() -> (r: MessageArrow)
        ensures
            r == MessageArrow::Solid,
    {
        MessageArrow::Solid
    }
}

pub open spec fn message_arrow_text(a: MessageArrow) -> Seq<char> {
    match a {
        MessageArrow::Solid => "->>"@,
        MessageArrow::Dashed => "-->>"@,
    }
}

impl MessageArrow {
    pub fn mermaid_str(self) -> (r: &'static str)
        ensures
            r@ == message_arrow_text(self),
    {
        match self {
            MessageArrow::Solid => "->>",
            MessageArrow::Dashed => "-->>",
        }
    }
}

#[derive(Clone, Debug)]
pub struct Participant {
    pub id: String,
    pub label: String,
}

#[derive(Clone, Debug)]
pub struct Message {
    pub from: String,
    pub to: String,
    pub text: String,
    pub arrow: MessageArrow,
}

#[derive(Clone, Copy, Debug, PartialEq, Eq, Structural)]
pub enum NotePlacement {
    LeftOf,
    RightOf,
    Over,
}

#[derive(Clone, Debug)]
pub struct Note {
    pub placement: NotePlacement,
    /// One actor for left/right; one or two for over.
    pub actors: Vec<String>,
    pub text: String,
    /// Emitted before `messages[before_message]` (after all when equal to the count).
    pub before_message: usize,
    /// Number of fragments open where the note was read.
    pub depth: usize,
}

#[derive(Clone, Copy, Debug, PartialEq, Eq, Structural)]
pub enum FragmentKind {
    Loop,
    Alt,
    Opt,
}

pub open spec fn fragment_keyword(k: FragmentKind) -> Seq<char> {
    match k {
        FragmentKind::Loop => "loop"@,
        FragmentKind::Alt => "alt"@,
        FragmentKind::Opt => "opt"@,
    }
}

impl FragmentKind {
    pub fn mermaid_keyword(self) -> (r: &'static str)
        ensures
            r@ == fragment_keyword(self),
    {
        match self {
            FragmentKind::Loop => "loop",
            FragmentKind::Alt => "alt",
            FragmentKind::Opt => "opt",
        }
    }

    pub fn plantuml_keyword(self) -> (r: &'static str)
        ensures
            r@ == fragment_keyword(self),
    {
        self.mermaid_keyword()
    }
}

#[derive(Clone, Debug)]
pub struct FragmentSection {
    pub label: String,
    /// First message of the section.
    pub start_message: usize,
}

/// Combined fragment (`loop` / `alt` / `opt` ... `end`) over a message range.
#[derive(Clone, Debug)]
pub struct Fragment {
    pub kind: FragmentKind,
    /// The header section, then `else` branches.
    pub sections: Vec<FragmentSection>,
    /// One past the last message.
    pub end_message: usize,
}

impl Fragment {
    /// First message of the fragment (its end when it has no section).
    pub fn start_message(&self) -> (r: usize)
        ensures
            self.sections@.len() > 0 ==> r == self.sections@[0].start_message,
            self.sections@.len() == 0 ==> r == self.end_message,
    {
        if self.sections.len() > 0 {
            self.sections[0].start_message
        } else {
            self.end_message
        }
    }
}

#[derive(Clone, Debug)]
pub struct SequenceDiagram {
    pub participants: Vec<Participant>,
    pub messages: Vec<Message>,
    pub notes: Vec<Note>,
    pub fragments: Vec<Fragment>,
}

#[derive(Clone, Debug)]
pub struct ParseError {
    pub message: String,
    pub line: Option<usize>,
}

// ---------------------------------------------------------------- values

pub type MsgV = (Seq<char>, Seq<char>, Seq<char>, MessageArrow);

pub type NoteV = (NotePlacement, Seq<Seq<char>>, Seq<char>, int, int);

pub type FragV = (FragmentKind, Seq<(Seq<char>, int)>, int);

/// A sequence diagram as values.
#[verifier::ext_equal]
pub ghost struct SeqV {
    pub parts: Seq<(Seq<char>, Seq<char>)>,
    pub messages: Seq<MsgV>,
    pub notes: Seq<NoteV>,
    pub fragments: Seq<FragV>,
}

pub open spec fn msg_v(m: Message) -> MsgV {
    (m.from@, m.to@, m.text@, m.arrow)
}

pub open spec fn note_v(n: Note) -> NoteV {
    (n.placement, views(n.actors@), n.text@, n.before_message as int, n.depth as int)
}

pub open spec fn sections_v(s: Seq<FragmentSection>) -> Seq<(Seq<char>, int)> {
    Seq::new(s.len(), |i: int| (s[i].label@, s[i].start_message as int))
}

pub open spec fn frag_v(f: Fragment) -> FragV {
    (f.kind, sections_v(f.sections@), f.end_message as int)
}

pub open spec fn seq_v(d: SequenceDiagram) -> SeqV {
    SeqV {
        parts: Seq::new(d.participants@.len(), |i: int| (d.participants@[i].id@, d.participants@[i].label@)),
        messages: Seq::new(d.messages@.len(), |i: int| msg_v(d.messages@[i])),
        notes: Seq::new(d.notes@.len(), |i: int| note_v(d.notes@[i])),
        fragments: Seq::new(d.fragments@.len(), |i: int| frag_v(d.fragments@[i])),
    }
}

// ---------------------------------------------------------------- grammar

/// First non-comment line starts with `sequenceDiagram`.
pub open spec fn first_content_starts(src: Seq<char>, kw: Seq<char>) -> bool {
    let ls = kept_numbered(lines(src), |l: Seq<char>| keep_content(l));
    ls.len() > 0 && kw.is_prefix_of(ls[0].1)
}

/// `id as alias` or a bare id.
pub open spec fn participant_decl(rest: Seq<char>) -> (Seq<char>, Seq<char>) {
    match split_once(rest, " as "@) {
        Some((id, alias)) => (trim(id), trim(alias)),
        None => (trim(rest), trim(rest)),
    }
}

/// `participant X` or `actor X`.
pub open spec fn participant_rest(text: Seq<char>) -> Option<Seq<char>> {
    match strip_prefix(text, "participant "@) {
        Some(r) => Some(r),
        None => strip_prefix(text, "actor "@),
    }
}

/// One of the fragment keywords, alone or followed by a space and a label.
pub open spec fn fragment_kw(text: Seq<char>, kw: Seq<char>) -> Option<Seq<char>> {
    if text == kw {
        Some(Seq::empty())
    } else {
        match strip_prefix(text, kw) {
            Some(rest) => if rest.len() == 0 || rest[0] == ' ' {
                Some(trim(rest))
            } else {
                None
            },
            None => None,
        }
    }
}

pub open spec fn fragment_start(text: Seq<char>) -> Option<(FragmentKind, Seq<char>)> {
    if let Some(l) = fragment_kw(text, "loop"@) {
        Some((FragmentKind::Loop, l))
    } else if let Some(l) = fragment_kw(text, "alt"@) {
        Some((FragmentKind::Alt, l))
    } else if let Some(l) = fragment_kw(text, "opt"@) {
        Some((FragmentKind::Opt, l))
    } else {
        None
    }
}

/// A message with one arrow token.
pub open spec fn message_with(text: Seq<char>, tok: Seq<char>, arrow: MessageArrow) -> Option<
    Option<MsgV>,
> {
    match split_once(text, tok) {
        Some((left, right)) => {
            let from = trim(left);
            let (to, body) = match split_once(right, ":"@) {
                Some((t, b)) => (trim(t), trim(b)),
                None => (trim(right), Seq::empty()),
            };
            if from.len() == 0 || to.len() == 0 {
                Some(None)
            } else {
                Some(Some((from, to, body, arrow)))
            }
        },
        None => None,
    }
}

/// `A->>B: text` or `A-->>B: text` (the longer arrow is tried first).
pub open spec fn message_line(text: Seq<char>) -> Option<MsgV> {
    match message_with(text, "-->>"@, MessageArrow::Dashed) {
        Some(r) => r,
        None => match message_with(text, "->>"@, MessageArrow::Solid) {
            Some(r) => r,
            None => None,
        },
    }
}

pub open spec fn note_placement(rest: Seq<char>) -> Option<(NotePlacement, Seq<char>)> {
    if let Some(r) = strip_prefix(rest, "left of "@) {
        Some((NotePlacement::LeftOf, r))
    } else if let Some(r) = strip_prefix(rest, "right of "@) {
        Some((NotePlacement::RightOf, r))
    } else if let Some(r) = strip_prefix(rest, "over "@) {
        Some((NotePlacement::Over, r))
    } else {
        None
    }
}

/// `Note left of A: text`, `Note right of A: text`, `Note over A,B: text`.
pub open spec fn note_line(text: Seq<char>, before: int, depth: int) -> Option<NoteV> {
    match strip_prefix(text, "Note "@) {
        Some(r0) => match note_placement(trim_start(r0)) {
            Some((placement, rest)) => match split_once(rest, ":"@) {
                Some((actors_part, body)) => {
                    let actors = nonempty_trimmed(split_char(actors_part, ','));
                    if actors.len() == 0 {
                        None
                    } else if placement != NotePlacement::Over && actors.len() != 1 {
                        None
                    } else {
                        Some((placement, actors, trim(body), before, depth))
                    }
                },
                None => None,
            },
            None => None,
        },
        None => None,
    }
}

/// Known participant ids.
pub open spec fn known(parts: Seq<(Seq<char>, Seq<char>)>, id: Seq<char>) -> bool {
    exists|i: int| 0 <= i < parts.len() && (#[trigger] parts[i]).0 == id
}

/// Add a participant labelled by its id, unless known.
pub open spec fn ensure_part(parts: Seq<(Seq<char>, Seq<char>)>, id: Seq<char>) -> Seq<(Seq<char>, Seq<char>)> {
    if known(parts, id) {
        parts
    } else {
        parts.push((id, id))
    }
}

/// Declare a participant: relabel it when known, else add it.
pub open spec fn declare_part(parts: Seq<(Seq<char>, Seq<char>)>, id: Seq<char>, label: Seq<char>) -> Seq<(Seq<char>, Seq<char>)> {
    if known(parts, id) {
        Seq::new(parts.len(), |i: int| if parts[i].0 == id { (id, label) } else { parts[i] })
    } else {
        parts.push((id, label))
    }
}

/// Participants of all actors, in order.
pub open spec fn ensure_all(parts: Seq<(Seq<char>, Seq<char>)>, ids: Seq<Seq<char>>) -> Seq<(Seq<char>, Seq<char>)>
    decreases ids.len(),
{
    if ids.len() == 0 {
        parts
    } else {
        ensure_part(ensure_all(parts, ids.drop_last()), ids.last())
    }
}

/// Parser state: the diagram so far and the open fragments.
#[verifier::ext_equal]
pub ghost struct SeqSt {
    pub d: SeqV,
    pub open: Seq<(FragmentKind, Seq<(Seq<char>, int)>)>,
}

/// One line of the body: the new state, or the error message and line.
pub open spec fn seq_step(st: SeqSt, n: int, text: Seq<char>) -> Result<SeqSt, (Seq<char>, Option<int>)> {
    let d = st.d;
    let m = d.messages.len() as int;
    if let Some(rest) = participant_rest(text) {
        let (id, label) = participant_decl(rest);
        Ok(SeqSt { d: SeqV { parts: declare_part(d.parts, id, label), ..d }, ..st })
    } else if let Some((kind, label)) = fragment_start(text) {
        Ok(SeqSt { open: st.open.push((kind, seq![(label, m)])), ..st })
    } else if let Some(rest) = strip_prefix(text, "else"@) {
        if st.open.len() == 0 {
            Err(("else without open fragment"@, Some(n)))
        } else if st.open.last().0 != FragmentKind::Alt {
            Err(("else is only valid inside alt"@, Some(n)))
        } else {
            let top = st.open.last();
            Ok(SeqSt { open: st.open.drop_last().push((top.0, top.1.push((trim(rest), m)))), ..st })
        }
    } else if text == "end"@ {
        if st.open.len() == 0 {
            Err(("end without open fragment"@, Some(n)))
        } else {
            let top = st.open.last();
            Ok(SeqSt { d: SeqV { fragments: d.fragments.push((top.0, top.1, m)), ..d }, open: st.open.drop_last() })
        }
    } else if let Some(note) = note_line(text, m, st.open.len() as int) {
        Ok(SeqSt { d: SeqV { parts: ensure_all(d.parts, note.1), notes: d.notes.push(note), ..d }, ..st })
    } else if let Some(msg) = message_line(text) {
        Ok(SeqSt { d: SeqV { parts: ensure_part(ensure_part(d.parts, msg.0), msg.1), messages: d.messages.push(msg), ..d }, ..st })
    } else {
        Err(("unrecognized sequence line: "@ + text, Some(n)))
    }
}

/// Body lines `i..`, stopping at the first error.
pub open spec fn seq_run(ls: Seq<(int, Seq<char>)>, i: int, st: SeqSt) -> Result<SeqSt, (Seq<char>, Option<int>)>
    decreases ls.len() - i,
{
    if i < 1 || i >= ls.len() {
        Ok(st)
    } else {
        match seq_step(st, ls[i].0, ls[i].1) {
            Ok(st2) => seq_run(ls, i + 1, st2),
            Err(e) => Err(e),
        }
    }
}

pub open spec fn empty_seq_st() -> SeqSt {
    SeqSt {
        d: SeqV { parts: Seq::empty(), messages: Seq::empty(), notes: Seq::empty(), fragments: Seq::empty() },
        open: Seq::empty(),
    }
}

/// What parsing a sequence diagram source gives: the diagram, or the error
/// message and line.
pub open spec fn seq_parse(src: Seq<char>) -> Result<SeqV, (Seq<char>, Option<int>)> {
    let ls = kept_numbered(lines(src), |l: Seq<char>| keep_content(l));
    if ls.len() == 0 {
        Err(("expected sequenceDiagram header"@, None))
    } else if !("sequenceDiagram"@.is_prefix_of(ls[0].1)) {
        Err(("expected sequenceDiagram header"@, Some(ls[0].0)))
    } else {
        match seq_run(ls, 1, empty_seq_st()) {
            Ok(st) => if st.open.len() > 0 {
                Err(("unclosed fragment (expected end)"@, None))
            } else {
                Ok(st.d)
            },
            Err(e) => Err(e),
        }
    }
}


// ================================================================ executable

/// The first content line starts with `sequenceDiagram`.
pub fn is_sequence(source: &str) -> (b: bool)
    ensures
        b == first_content_starts(source@, "sequenceDiagram"@),
{
    let ls = numbered_lines(source);
    if ls.len() == 0 {
        return false;
    }
    let kw = chars_of("sequenceDiagram");
    assert(numbered(ls@)[0].1 == ls@[0].1@);
    starts_with(ls[0].1.as_slice(), kw.as_slice())
}

fn trimmed(s: &[char]) -> (r: Vec<char>)
    ensures
        r@ == trim(s@),
{
    slice_to_vec(trim_slice(s))
}

fn participant_decl_exec(rest: &[char]) -> (r: (Vec<char>, Vec<char>))
    ensures
        (r.0@, r.1@) == participant_decl(rest@),
{
    match split_once_exec(rest, " as ") {
        Some((id, alias)) => (trimmed(id.as_slice()), trimmed(alias.as_slice())),
        None => (trimmed(rest), trimmed(rest)),
    }
}

pub(crate) fn participant_rest_exec(text: &[char]) -> (r: Option<Vec<char>>)
    ensures
        match participant_rest(text@) {
            Some(t) => r matches Some(v) && v@ == t,
            None => r is None,
        },
{
    match strip_prefix_exec(text, "participant ") {
        Some(r) => Some(r),
        None => strip_prefix_exec(text, "actor "),
    }
}

fn fragment_kw_exec(text: &[char], kw: &str) -> (r: Option<Vec<char>>)
    ensures
        match fragment_kw(text@, kw@) {
            Some(t) => r matches Some(v) && v@ == t,
            None => r is None,
        },
{
    let k = chars_of(kw);
    if eq_slice(text, k.as_slice()) {
        return Some(Vec::new());
    }
    match strip_prefix_exec(text, kw) {
        Some(rest) => {
            if rest.len() == 0 || rest[0] == ' ' {
                Some(trimmed(rest.as_slice()))
            } else {
                None
            }
        },
        None => None,
    }
}

fn fragment_start_exec(text: &[char]) -> (r: Option<(FragmentKind, Vec<char>)>)
    ensures
        match fragment_start(text@) {
            Some((k, l)) => r matches Some((x, v)) && x == k && v@ == l,
            None => r is None,
        },
{
    if let Some(l) = fragment_kw_exec(text, "loop") {
        Some((FragmentKind::Loop, l))
    } else if let Some(l) = fragment_kw_exec(text, "alt") {
        Some((FragmentKind::Alt, l))
    } else if let Some(l) = fragment_kw_exec(text, "opt") {
        Some((FragmentKind::Opt, l))
    } else {
        None
    }
}

pub(crate) fn message_with_exec(text: &[char], tok: &str, arrow: MessageArrow) -> (r: Option<Option<Message>>)
    ensures
        match message_with(text@, tok@, arrow) {
            Some(Some(m)) => r matches Some(Some(x)) && msg_v(x) == m,
            Some(None) => r matches Some(None),
            None => r is None,
        },
{
    match split_once_exec(text, tok) {
        Some((left, right)) => {
            let from = trimmed(left.as_slice());
            let (to, body) = match split_once_exec(right.as_slice(), ":") {
                Some((t, b)) => (trimmed(t.as_slice()), trimmed(b.as_slice())),
                None => (trimmed(right.as_slice()), Vec::new()),
            };
            if from.len() == 0 || to.len() == 0 {
                Some(None)
            } else {
                Some(
                    Some(
                        Message {
                            from: string_of(from.as_slice()),
                            to: string_of(to.as_slice()),
                            text: string_of(body.as_slice()),
                            arrow,
                        },
                    ),
                )
            }
        },
        None => None,
    }
}

fn message_line_exec(text: &[char]) -> (r: Option<Message>)
    ensures
        match message_line(text@) {
            Some(m) => r matches Some(x) && msg_v(x) == m,
            None => r is None,
        },
{
    match message_with_exec(text, "-->>", MessageArrow::Dashed) {
        Some(r) => r,
        None => match message_with_exec(text, "->>", MessageArrow::Solid) {
            Some(r) => r,
            None => None,
        },
    }
}

pub(crate) fn note_placement_exec(rest: &[char]) -> (r: Option<(NotePlacement, Vec<char>)>)
    ensures
        match note_placement(rest@) {
            Some((p, t)) => r matches Some((x, v)) && x == p && v@ == t,
            None => r is None,
        },
{
    if let Some(r) = strip_prefix_exec(rest, "left of ") {
        Some((NotePlacement::LeftOf, r))
    } else if let Some(r) = strip_prefix_exec(rest, "right of ") {
        Some((NotePlacement::RightOf, r))
    } else if let Some(r) = strip_prefix_exec(rest, "over ") {
        Some((NotePlacement::Over, r))
    } else {
        None
    }
}

fn note_line_exec(text: &[char], before: usize, depth: usize) -> (r: Option<Note>)
    ensures
        match note_line(text@, before as int, depth as int) {
            Some(n) => r matches Some(x) && note_v(x) == n,
            None => r is None,
        },
{
    match strip_prefix_exec(text, "Note ") {
        Some(r0) => {
            let st = crate::text::trim_start_index(r0.as_slice());
            let r1 = &r0.as_slice()[st..r0.len()];
            match note_placement_exec(r1) {
                Some((placement, rest)) => match split_once_exec(rest.as_slice(), ":") {
                    Some((actors_part, body)) => {
                        let actors = split_trim_nonempty(actors_part.as_slice(), ',');
                        if actors.len() == 0 {
                            None
                        } else if placement != NotePlacement::Over && actors.len() != 1 {
                            None
                        } else {
                            Some(
                                Note {
                                    placement,
                                    actors,
                                    text: string_of(trimmed(body.as_slice()).as_slice()),
                                    before_message: before,
                                    depth,
                                },
                            )
                        }
                    },
                    None => None,
                },
                None => None,
            }
        },
        None => None,
    }
}


pub open spec fn open_v(o: Seq<(FragmentKind, Vec<FragmentSection>)>) -> Seq<(FragmentKind, Seq<(Seq<char>, int)>)> {
    Seq::new(o.len(), |i: int| (o[i].0, sections_v(o[i].1@)))
}

pub open spec fn err_v(e: ParseError) -> (Seq<char>, Option<int>) {
    (e.message@, match e.line {
        Some(l) => Some(l as int),
        None => None,
    })
}

fn find_part(parts: &Vec<Participant>, id: &[char]) -> (b: bool)
    ensures
        b == known(Seq::new(parts@.len(), |i: int| (parts@[i].id@, parts@[i].label@)), id@),
{
    let ghost pv = Seq::new(parts@.len(), |i: int| (parts@[i].id@, parts@[i].label@));
    let mut i: usize = 0;
    while i < parts.len()
        invariant
            i <= parts@.len(),
            pv == Seq::new(parts@.len(), |i: int| (parts@[i].id@, parts@[i].label@)),
            forall|k: int| 0 <= k < i ==> (#[trigger] pv[k]).0 != id@,
        decreases parts@.len() - i,
    {
        let c = chars_of(parts[i].id.as_str());
        if eq_slice(c.as_slice(), id) {
            assert(pv[i as int].0 == id@);
            return true;
        }
        i = i + 1;
    }
    false
}

pub(crate) fn ensure_part_exec(d: &mut SequenceDiagram, id: &[char])
    ensures
        seq_v(*final(d)) == (SeqV { parts: ensure_part(seq_v(*old(d)).parts, id@), ..seq_v(*old(d)) }),
{
    let ghost v = seq_v(*d);
    if !find_part(&d.participants, id) {
        d.participants.push(Participant { id: string_of(id), label: string_of(id) });
        assert(seq_v(*d) =~= (SeqV { parts: v.parts.push((id@, id@)), ..v }));
    }
}

pub(crate) fn declare_part_exec(d: &mut SequenceDiagram, id: &[char], label: &[char])
    ensures
        seq_v(*final(d)) == (SeqV { parts: declare_part(seq_v(*old(d)).parts, id@, label@), ..seq_v(*old(d)) }),
{
    let ghost v = seq_v(*d);
    let ghost pv = v.parts;
    if !find_part(&d.participants, id) {
        d.participants.push(Participant { id: string_of(id), label: string_of(label) });
        assert(seq_v(*d) =~= (SeqV { parts: pv.push((id@, label@)), ..v }));
        return;
    }
    let ghost target = Seq::new(pv.len(), |i: int| if pv[i].0 == id@ { (id@, label@) } else { pv[i] });
    let mut i: usize = 0;
    while i < d.participants.len()
        invariant
            i <= d.participants@.len(),
            d.participants@.len() == pv.len(),
            target == Seq::new(pv.len(), |i: int| if pv[i].0 == id@ { (id@, label@) } else { pv[i] }),
            d.messages == old(d).messages,
            d.notes == old(d).notes,
            d.fragments == old(d).fragments,
            forall|k: int| 0 <= k < i ==> (d.participants@[k].id@, d.participants@[k].label@) == target[k],
            forall|k: int| i <= k < pv.len() ==> (d.participants@[k].id@, d.participants@[k].label@) == pv[k],
        decreases d.participants@.len() - i,
    {
        let c = chars_of(d.participants[i].id.as_str());
        if eq_slice(c.as_slice(), id) {
            let p = Participant { id: string_of(id), label: string_of(label) };
            d.participants.set(i, p);
        }
        i = i + 1;
    }
    assert(seq_v(*d) =~= (SeqV { parts: target, ..v }));
}

pub(crate) fn ensure_all_exec(d: &mut SequenceDiagram, ids: &Vec<String>)
    ensures
        seq_v(*final(d)) == (SeqV { parts: ensure_all(seq_v(*old(d)).parts, views(ids@)), ..seq_v(*old(d)) }),
{
    let ghost v = seq_v(*d);
    let ghost all = views(ids@);
    let mut i: usize = 0;
    assert(all.take(0) =~= Seq::<Seq<char>>::empty());
    while i < ids.len()
        invariant
            i <= ids@.len(),
            all == views(ids@),
            seq_v(*d) == (SeqV { parts: ensure_all(v.parts, all.take(i as int)), ..v }),
        decreases ids@.len() - i,
    {
        let c = chars_of(ids[i].as_str());
        proof {
            assert(all.take(i + 1).drop_last() =~= all.take(i as int));
        }
        ensure_part_exec(d, c.as_slice());
        i = i + 1;
    }
    assert(all.take(ids@.len() as int) =~= all);
}

fn perr(msg: &str, line: Option<usize>) -> (e: ParseError)
    ensures
        e.message@ == msg@,
        e.line == line,
{
    ParseError { message: String::from_str(msg), line }
}

fn seq_step_exec(
    d: &mut SequenceDiagram,
    open: &mut Vec<(FragmentKind, Vec<FragmentSection>)>,
    n: usize,
    text: &[char],
) -> (r: Result<(), ParseError>)
    ensures
        match seq_step(SeqSt { d: seq_v(*old(d)), open: open_v(old(open)@) }, n as int, text@) {
            Ok(st) => r is Ok && st == (SeqSt { d: seq_v(*final(d)), open: open_v(final(open)@) }),
            Err(e) => r matches Err(x) && err_v(x) == e,
        },
{
    let ghost st = SeqSt { d: seq_v(*d), open: open_v(open@) };
    let m = d.messages.len();
    if let Some(rest) = participant_rest_exec(text) {
        let (id, label) = participant_decl_exec(rest.as_slice());
        declare_part_exec(d, id.as_slice(), label.as_slice());
        return Ok(());
    }
    if let Some((kind, label)) = fragment_start_exec(text) {
        let mut secs: Vec<FragmentSection> = Vec::new();
        secs.push(FragmentSection { label: string_of(label.as_slice()), start_message: m });
        assert(sections_v(secs@) =~= seq![(label@, m as int)]);
        let ghost o = open_v(open@);
        open.push((kind, secs));
        assert(open_v(open@) =~= o.push((kind, seq![(label@, m as int)])));
        return Ok(());
    }
    if let Some(rest) = strip_prefix_exec(text, "else") {
        if open.len() == 0 {
            return Err(perr("else without open fragment", Some(n)));
        }
        let last = open.len() - 1;
        if open[last].0 != FragmentKind::Alt {
            return Err(perr("else is only valid inside alt", Some(n)));
        }
        let ghost o = open_v(open@);
        let (kind, mut secs) = open.pop().unwrap();
        let ghost sv = sections_v(secs@);
        secs.push(FragmentSection { label: string_of(trimmed(rest.as_slice()).as_slice()), start_message: m });
        assert(sections_v(secs@) =~= sv.push((trim(rest@), m as int)));
        open.push((kind, secs));
        assert(open_v(open@) =~= o.drop_last().push((o.last().0, o.last().1.push((trim(rest@), m as int)))));
        return Ok(());
    }
    if eq_slice(text, chars_of("end").as_slice()) {
        if open.len() == 0 {
            return Err(perr("end without open fragment", Some(n)));
        }
        let ghost o = open_v(open@);
        let ghost v = seq_v(*d);
        let (kind, secs) = open.pop().unwrap();
        assert(open_v(open@) =~= o.drop_last());
        d.fragments.push(Fragment { kind, sections: secs, end_message: m });
        assert(seq_v(*d) =~= (SeqV { fragments: v.fragments.push((o.last().0, o.last().1, m as int)), ..v }));
        return Ok(());
    }
    if let Some(note) = note_line_exec(text, m, open.len()) {
        ensure_all_exec(d, &note.actors);
        let ghost v = seq_v(*d);
        let ghost nv = note_v(note);
        d.notes.push(note);
        assert(seq_v(*d) =~= (SeqV { notes: v.notes.push(nv), ..v }));
        return Ok(());
    }
    if let Some(msg) = message_line_exec(text) {
        let f = chars_of(msg.from.as_str());
        let t = chars_of(msg.to.as_str());
        ensure_part_exec(d, f.as_slice());
        ensure_part_exec(d, t.as_slice());
        let ghost v = seq_v(*d);
        let ghost mv = msg_v(msg);
        d.messages.push(msg);
        assert(seq_v(*d) =~= (SeqV { messages: v.messages.push(mv), ..v }));
        return Ok(());
    }
    let mut msg = String::from_str("unrecognized sequence line: ");
    crate::text::push_chars(&mut msg, text);
    Err(ParseError { message: msg, line: Some(n) })
}

/// Read a Mermaid sequence diagram.
pub fn parse(source: &str) -> (r: Result<SequenceDiagram, ParseError>)
    ensures
        match seq_parse(source@) {
            Ok(v) => r matches Ok(d) && seq_v(d) == v,
            Err(e) => r matches Err(x) && err_v(x) == e,
        },
{
    let ls = numbered_lines(source);
    let ghost nl = numbered(ls@);
    if ls.len() == 0 {
        return Err(perr("expected sequenceDiagram header", None));
    }
    assert(nl[0] == (ls@[0].0 as int, ls@[0].1@));
    if !starts_with(ls[0].1.as_slice(), chars_of("sequenceDiagram").as_slice()) {
        return Err(perr("expected sequenceDiagram header", Some(ls[0].0)));
    }
    let mut d = SequenceDiagram {
        participants: Vec::new(),
        messages: Vec::new(),
        notes: Vec::new(),
        fragments: Vec::new(),
    };
    let mut open: Vec<(FragmentKind, Vec<FragmentSection>)> = Vec::new();
    assert(seq_v(d) =~= empty_seq_st().d);
    assert(open_v(open@) =~= empty_seq_st().open);
    let mut i: usize = 1;
    while i < ls.len()
        invariant
            1 <= i <= ls@.len(),
            nl == numbered(ls@),
            nl == kept_numbered(lines(source@), |l: Seq<char>| keep_content(l)),
            nl.len() > 0 && "sequenceDiagram"@.is_prefix_of(nl[0].1),
            seq_run(nl, i as int, SeqSt { d: seq_v(d), open: open_v(open@) }) == seq_run(nl, 1, empty_seq_st()),
        decreases ls@.len() - i,
    {
        assert(nl[i as int] == (ls@[i as int].0 as int, ls@[i as int].1@));
        let ghost st0 = SeqSt { d: seq_v(d), open: open_v(open@) };
        match seq_step_exec(&mut d, &mut open, ls[i].0, ls[i].1.as_slice()) {
            Ok(()) => {},
            Err(e) => {
                assert(seq_run(nl, i as int, st0) == Err::<SeqSt, (Seq<char>, Option<int>)>(err_v(e)));
                return Err(e);
            },
        }
        i = i + 1;
    }
    if open.len() > 0 {
        return Err(perr("unclosed fragment (expected end)", None));
    }
    Ok(d)
}


// ================================================================ timeline

/// One emitted item of a sequence diagram, in reading order.
pub ghost enum Ev {
    Start(FragmentKind, Seq<char>),
    Else(Seq<char>),
    End,
    NoteAt(int),
    MsgAt(int),
}

/// Emission state: events so far, notes already emitted, open fragments.
#[verifier::ext_equal]
pub ghost struct Tl {
    pub events: Seq<Ev>,
    pub emitted: Seq<bool>,
    pub stack: Seq<int>,
}

pub open spec fn frag_start(f: FragV) -> int {
    if f.1.len() > 0 {
        f.1[0].1
    } else {
        f.2
    }
}

/// Notes from `k` on that belong before message `i` at this depth.
pub open spec fn emit_from(d: SeqV, st: Tl, i: int, depth: int, k: int) -> Tl
    decreases d.notes.len() - k,
{
    if k < 0 || k >= d.notes.len() || k >= st.emitted.len() {
        st
    } else {
        let n = d.notes[k];
        let st2 = if !st.emitted[k] && n.3 == i && n.4 == depth {
            Tl { events: st.events.push(Ev::NoteAt(k)), emitted: st.emitted.update(k, true), ..st }
        } else {
            st
        };
        emit_from(d, st2, i, depth, k + 1)
    }
}

pub proof fn lemma_emit_keeps_stack(d: SeqV, st: Tl, i: int, depth: int, k: int)
    ensures
        emit_from(d, st, i, depth, k).stack == st.stack,
        emit_from(d, st, i, depth, k).emitted.len() == st.emitted.len(),
    decreases d.notes.len() - k,
{
    if k < 0 || k >= d.notes.len() || k >= st.emitted.len() {
    } else {
        let n = d.notes[k];
        let st2 = if !st.emitted[k] && n.3 == i && n.4 == depth {
            Tl { events: st.events.push(Ev::NoteAt(k)), emitted: st.emitted.update(k, true), ..st }
        } else {
            st
        };
        lemma_emit_keeps_stack(d, st2, i, depth, k + 1);
    }
}

pub open spec fn emit_notes(d: SeqV, st: Tl, i: int) -> Tl {
    emit_from(d, st, i, st.stack.len() as int, 0)
}

/// Close the open fragments that end at `i` (only non-empty ones when
/// `nonempty_only`), emitting their trailing notes first.
pub open spec fn close_frags(d: SeqV, st: Tl, i: int, nonempty_only: bool) -> Tl
    decreases st.stack.len(),
{
    if st.stack.len() == 0 {
        st
    } else {
        let top = st.stack.last();
        if 0 <= top < d.fragments.len() && d.fragments[top].2 == i && (!nonempty_only || frag_start(
            d.fragments[top],
        ) < i) {
            let st1 = emit_notes(d, st, i);
            proof {
                lemma_emit_keeps_stack(d, st, i, st.stack.len() as int, 0);
            }
            let st2 = Tl { events: st1.events.push(Ev::End), stack: st1.stack.drop_last(), ..st1 };
            close_frags(d, st2, i, nonempty_only)
        } else {
            st
        }
    }
}

/// Open the fragments (from `k` on) that start at `i`.
pub open spec fn open_frags(d: SeqV, st: Tl, i: int, k: int) -> Tl
    decreases d.fragments.len() - k,
{
    if k < 0 || k >= d.fragments.len() {
        st
    } else {
        let f = d.fragments[k];
        let st2 = if frag_start(f) == i {
            let label = if f.1.len() > 0 {
                f.1[0].0
            } else {
                Seq::empty()
            };
            Tl { events: st.events.push(Ev::Start(f.0, label)), stack: st.stack.push(k), ..st }
        } else {
            st
        };
        open_frags(d, st2, i, k + 1)
    }
}

/// `else` sections (from `k` on) of the innermost open fragment starting at `i`.
pub open spec fn elses(d: SeqV, st: Tl, i: int, k: int) -> Tl
    decreases (if st.stack.len() > 0 && 0 <= st.stack.last() < d.fragments.len() {
        d.fragments[st.stack.last()].1.len() as int
    } else {
        0
    }) - k,
{
    if st.stack.len() == 0 || !(0 <= st.stack.last() < d.fragments.len()) {
        st
    } else {
        let secs = d.fragments[st.stack.last()].1;
        if k < 1 || k >= secs.len() {
            st
        } else {
            let st2 = if secs[k].1 == i {
                Tl { events: st.events.push(Ev::Else(secs[k].0)), ..st }
            } else {
                st
            };
            elses(d, st2, i, k + 1)
        }
    }
}

/// Everything emitted at message position `i`.
pub open spec fn tl_step(d: SeqV, st: Tl, i: int) -> Tl {
    let s1 = close_frags(d, st, i, true);
    let s2 = emit_notes(d, s1, i);
    let s3 = open_frags(d, s2, i, 0);
    let s4 = elses(d, s3, i, 1);
    let s5 = emit_notes(d, s4, i);
    let s6 = if i < d.messages.len() {
        Tl { events: s5.events.push(Ev::MsgAt(i)), ..s5 }
    } else {
        s5
    };
    close_frags(d, s6, i, false)
}

/// State after positions `0..n`.
pub open spec fn tl_upto(d: SeqV, n: int) -> Tl
    decreases n,
{
    if n <= 0 {
        Tl { events: Seq::empty(), emitted: Seq::new(d.notes.len(), |k: int| false), stack: Seq::empty() }
    } else {
        tl_step(d, tl_upto(d, n - 1), n - 1)
    }
}

/// The emission order of a sequence diagram.
pub open spec fn timeline(d: SeqV) -> Seq<Ev> {
    tl_upto(d, d.messages.len() as int + 1).events
}

pub open spec fn note_text(n: NoteV) -> Seq<char> {
    (match n.0 {
        NotePlacement::LeftOf => "Note left of "@,
        NotePlacement::RightOf => "Note right of "@,
        NotePlacement::Over => "Note over "@,
    }) + join(n.1, ","@) + ": "@ + n.2
}

pub open spec fn event_line(d: SeqV, e: Ev) -> Seq<char> {
    match e {
        Ev::Start(kind, label) => if label.len() == 0 {
            "    "@ + fragment_keyword(kind) + "\n"@
        } else {
            "    "@ + fragment_keyword(kind) + " "@ + label + "\n"@
        },
        Ev::Else(label) => if label.len() == 0 {
            "    else\n"@
        } else {
            "    else "@ + label + "\n"@
        },
        Ev::End => "    end\n"@,
        Ev::NoteAt(k) => if 0 <= k < d.notes.len() {
            "    "@ + note_text(d.notes[k]) + "\n"@
        } else {
            Seq::empty()
        },
        Ev::MsgAt(k) => if 0 <= k < d.messages.len() {
            let m = d.messages[k];
            "    "@ + m.0 + message_arrow_text(m.3) + m.1 + ": "@ + m.2 + "\n"@
        } else {
            Seq::empty()
        },
    }
}

pub open spec fn part_line(p: (Seq<char>, Seq<char>)) -> Seq<char> {
    if p.1 != p.0 {
        "    participant "@ + p.0 + " as "@ + p.1 + "\n"@
    } else {
        "    participant "@ + p.0 + "\n"@
    }
}

/// Mermaid text of a sequence diagram.
pub open spec fn sequence_mermaid(d: SeqV) -> Seq<char> {
    "sequenceDiagram\n"@ + flat(d.parts, |p: (Seq<char>, Seq<char>)| part_line(p)) + flat(
        timeline(d),
        |e: Ev| event_line(d, e),
    )
}


/// One step of a diagram's timeline: a fragment opens (kind, label), an
/// `else` section starts, a fragment closes, a note (by index) or a message
/// (by index) comes.
pub enum TEv {
    Start(FragmentKind, String),
    Else(String),
    End,
    NoteAt(usize),
    MsgAt(usize),
}

pub open spec fn ev_v(e: TEv) -> Ev {
    match e {
        TEv::Start(k, l) => Ev::Start(k, l@),
        TEv::Else(l) => Ev::Else(l@),
        TEv::End => Ev::End,
        TEv::NoteAt(k) => Ev::NoteAt(k as int),
        TEv::MsgAt(k) => Ev::MsgAt(k as int),
    }
}

struct TlX {
    events: Vec<TEv>,
    emitted: Vec<bool>,
    stack: Vec<usize>,
}

spec fn tl_v(t: TlX) -> Tl {
    Tl {
        events: Seq::new(t.events@.len(), |i: int| ev_v(t.events@[i])),
        emitted: t.emitted@,
        stack: Seq::new(t.stack@.len(), |i: int| t.stack@[i] as int),
    }
}

fn emit_notes_exec(d: &SequenceDiagram, t: &mut TlX, i: usize)
    ensures
        tl_v(*final(t)) == emit_notes(seq_v(*d), tl_v(*old(t)), i as int),
{
    let ghost dv = seq_v(*d);
    let depth = t.stack.len();
    let mut k: usize = 0;
    while k < d.notes.len()
        invariant
            dv == seq_v(*d),
            depth == old(t).stack@.len(),
            emit_from(dv, tl_v(*t), i as int, depth as int, k as int) == emit_from(dv, tl_v(*old(t)), i as int, depth as int, 0),
        decreases d.notes@.len() - k,
    {
        if k >= t.emitted.len() {
            return;
        }
        let ghost before = tl_v(*t);
        let n = &d.notes[k];
        if !t.emitted[k] && n.before_message == i && n.depth == depth {
            t.events.push(TEv::NoteAt(k));
            t.emitted.set(k, true);
            assert(tl_v(*t) =~= (Tl { events: before.events.push(Ev::NoteAt(k as int)), emitted: before.emitted.update(k as int, true), ..before }));
        }
        k = k + 1;
    }
}

fn close_frags_exec(d: &SequenceDiagram, t: &mut TlX, i: usize, nonempty_only: bool)
    ensures
        tl_v(*final(t)) == close_frags(seq_v(*d), tl_v(*old(t)), i as int, nonempty_only),
{
    let ghost dv = seq_v(*d);
    loop
        invariant
            dv == seq_v(*d),
            close_frags(dv, tl_v(*t), i as int, nonempty_only) == close_frags(dv, tl_v(*old(t)), i as int, nonempty_only),
        decreases t.stack@.len(),
    {
        if t.stack.len() == 0 {
            return;
        }
        let top = t.stack[t.stack.len() - 1];
        if !(top < d.fragments.len()) {
            return;
        }
        let f = &d.fragments[top];
        assert(frag_v(*f) == dv.fragments[top as int]);
        if !(f.end_message == i && (!nonempty_only || f.start_message() < i)) {
            return;
        }
        let ghost s0 = tl_v(*t);
        proof {
            lemma_emit_keeps_stack(dv, s0, i as int, s0.stack.len() as int, 0);
        }
        emit_notes_exec(d, t, i);
        let ghost s1 = tl_v(*t);
        t.events.push(TEv::End);
        t.stack.pop();
        assert(tl_v(*t) =~= (Tl { events: s1.events.push(Ev::End), stack: s1.stack.drop_last(), ..s1 }));
    }
}

fn open_frags_exec(d: &SequenceDiagram, t: &mut TlX, i: usize)
    ensures
        tl_v(*final(t)) == open_frags(seq_v(*d), tl_v(*old(t)), i as int, 0),
{
    let ghost dv = seq_v(*d);
    let mut k: usize = 0;
    while k < d.fragments.len()
        invariant
            dv == seq_v(*d),
            open_frags(dv, tl_v(*t), i as int, k as int) == open_frags(dv, tl_v(*old(t)), i as int, 0),
        decreases d.fragments@.len() - k,
    {
        let f = &d.fragments[k];
        assert(frag_v(*f) == dv.fragments[k as int]);
        if f.start_message() == i {
            let ghost before = tl_v(*t);
            let label = if f.sections.len() > 0 {
                f.sections[0].label.clone()
            } else {
                String::new()
            };
            t.events.push(TEv::Start(f.kind, label));
            t.stack.push(k);
            assert(tl_v(*t) =~= (Tl { events: before.events.push(Ev::Start(f.kind, label@)), stack: before.stack.push(k as int), ..before }));
        }
        k = k + 1;
    }
}

fn elses_exec(d: &SequenceDiagram, t: &mut TlX, i: usize)
    ensures
        tl_v(*final(t)) == elses(seq_v(*d), tl_v(*old(t)), i as int, 1),
{
    let ghost dv = seq_v(*d);
    if t.stack.len() == 0 {
        return;
    }
    let top = t.stack[t.stack.len() - 1];
    if !(top < d.fragments.len()) {
        return;
    }
    let f = &d.fragments[top];
    assert(frag_v(*f) == dv.fragments[top as int]);
    let mut k: usize = 1;
    while k < f.sections.len()
        invariant
            dv == seq_v(*d),
            1 <= k,
            top < d.fragments@.len(),
            *f == d.fragments@[top as int],
            frag_v(*f) == dv.fragments[top as int],
            t.stack@.len() > 0 && t.stack@.last() == top,
            elses(dv, tl_v(*t), i as int, k as int) == elses(dv, tl_v(*old(t)), i as int, 1),
        decreases f.sections@.len() - k,
    {
        assert(tl_v(*t).stack.last() == top as int);
        if f.sections[k].start_message == i {
            let ghost before = tl_v(*t);
            t.events.push(TEv::Else(f.sections[k].label.clone()));
            assert(tl_v(*t) =~= (Tl { events: before.events.push(Ev::Else(f.sections@[k as int].label@)), ..before }));
        }
        k = k + 1;
    }
    assert(tl_v(*t).stack.last() == top as int);
}

/// The timeline of a diagram, in the order it is drawn and printed.
pub fn timeline_exec(d: &SequenceDiagram) -> (r: Vec<TEv>)
    ensures
        Seq::new(r@.len(), |i: int| ev_v(r@[i])) == timeline(seq_v(*d)),
{
    let ghost dv = seq_v(*d);
    let mut emitted: Vec<bool> = Vec::new();
    let mut k: usize = 0;
    while k < d.notes.len()
        invariant
            k <= d.notes@.len(),
            emitted@ == Seq::new(k as nat, |j: int| false),
        decreases d.notes@.len() - k,
    {
        emitted.push(false);
        k = k + 1;
        assert(emitted@ =~= Seq::new(k as nat, |j: int| false));
    }
    let mut t = TlX { events: Vec::new(), emitted, stack: Vec::new() };
    assert(tl_v(t) =~= tl_upto(dv, 0));
    let mut i: usize = 0;
    loop
        invariant
            dv == seq_v(*d),
            i <= d.messages@.len(),
            tl_v(t) == tl_upto(dv, i as int),
        decreases d.messages@.len() - i,
    {
        close_frags_exec(d, &mut t, i, true);
        emit_notes_exec(d, &mut t, i);
        open_frags_exec(d, &mut t, i);
        elses_exec(d, &mut t, i);
        emit_notes_exec(d, &mut t, i);
        if i < d.messages.len() {
            let ghost before = tl_v(t);
            t.events.push(TEv::MsgAt(i));
            assert(tl_v(t) =~= (Tl { events: before.events.push(Ev::MsgAt(i as int)), ..before }));
        }
        close_frags_exec(d, &mut t, i, false);
        if i == d.messages.len() {
            assert(tl_v(t) == tl_upto(dv, i + 1));
            return t.events;
        }
        i = i + 1;
    }
}


fn note_text_exec(n: &Note) -> (r: String)
    ensures
        r@ == note_text(note_v(*n)),
{
    let mut out = match n.placement {
        NotePlacement::LeftOf => String::from_str("Note left of "),
        NotePlacement::RightOf => String::from_str("Note right of "),
        NotePlacement::Over => String::from_str("Note over "),
    };
    out.append(join_strings(&n.actors, ",").as_str());
    out.append(": ");
    out.append(n.text.as_str());
    out
}

fn event_text(d: &SequenceDiagram, e: &TEv) -> (r: String)
    ensures
        r@ == event_line(seq_v(*d), ev_v(*e)),
{
    match e {
        TEv::Start(kind, label) => {
            let mut out = String::from_str("    ");
            out.append(kind.mermaid_keyword());
            if !label.as_str().is_empty() {
                out.append(" ");
                out.append(label.as_str());
            }
            out.append("\n");
            out
        },
        TEv::Else(label) => {
            if label.as_str().is_empty() {
                String::from_str("    else\n")
            } else {
                let mut out = String::from_str("    else ");
                out.append(label.as_str());
                out.append("\n");
                out
            }
        },
        TEv::End => String::from_str("    end\n"),
        TEv::NoteAt(k) => {
            if *k >= d.notes.len() {
                return String::new();
            }
            let mut out = String::from_str("    ");
            out.append(note_text_exec(&d.notes[*k]).as_str());
            out.append("\n");
            out
        },
        TEv::MsgAt(k) => {
            if *k >= d.messages.len() {
                return String::new();
            }
            let m = &d.messages[*k];
            let mut out = String::from_str("    ");
            out.append(m.from.as_str());
            out.append(m.arrow.mermaid_str());
            out.append(m.to.as_str());
            out.append(": ");
            out.append(m.text.as_str());
            out.append("\n");
            out
        },
    }
}

impl SequenceDiagram {
    /// Mermaid text.
    pub fn to_mermaid(&self) -> (r: String)
        ensures
            r@ == sequence_mermaid(seq_v(*self)),
    {
        let ghost dv = seq_v(*self);
        let mut out = String::from_str("sequenceDiagram\n");
        let ghost base = out@;
        let ghost fp = |p: (Seq<char>, Seq<char>)| part_line(p);
        let mut i: usize = 0;
        while i < self.participants.len()
            invariant
                i <= self.participants@.len(),
                dv == seq_v(*self),
                fp == (|p: (Seq<char>, Seq<char>)| part_line(p)),
                out@ == base + flat(dv.parts.take(i as int), fp),
            decreases self.participants@.len() - i,
        {
            proof {
                lemma_flat_step(dv.parts, fp, i as int);
            }
            let p = &self.participants[i];
            out.append("    participant ");
            out.append(p.id.as_str());
            if p.label != p.id {
                out.append(" as ");
                out.append(p.label.as_str());
            }
            out.append("\n");
            i = i + 1;
        }
        proof {
            lemma_flat_all(dv.parts, fp);
        }
        let events = timeline_exec(self);
        let ghost evs = Seq::new(events@.len(), |j: int| ev_v(events@[j]));
        let ghost base = out@;
        let ghost fe = |e: Ev| event_line(dv, e);
        let mut i: usize = 0;
        while i < events.len()
            invariant
                i <= events@.len(),
                dv == seq_v(*self),
                evs == Seq::new(events@.len(), |j: int| ev_v(events@[j])),
                evs == timeline(dv),
                fe == (|e: Ev| event_line(dv, e)),
                out@ == base + flat(evs.take(i as int), fe),
            decreases events@.len() - i,
        {
            proof {
                lemma_flat_step(evs, fe, i as int);
            }
            out.append(event_text(self, &events[i]).as_str());
            i = i + 1;
        }
        proof {
            lemma_flat_all(evs, fe);
        }
        out
    }
}

} // verus!
