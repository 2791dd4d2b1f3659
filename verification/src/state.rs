//! Mermaid state diagrams: model, parser and Mermaid output.

use vstd::prelude::*;
use crate::text::{
    chars_of, eq_slice, find, find_char, find_char_slice, flat, is_whitespace, is_ws,
    keep_content, kept_numbered, lemma_find_char_from, lemma_find_from, lemma_flat_all,
    lemma_flat_step, lemma_trim_idempotent, lines, lowercase, numbered, numbered_lines,
    push_chars, slice_to_vec, split_once, split_once_exec, starts_with, str_eq, string_of,
    strip_prefix, strip_prefix_exec, to_lowercase, trim, trim_slice, trim_start,
    trim_start_index, contains_char, occurs_at, matches_at, find_slice,
};

verus! {

#[derive(Clone, Copy, Debug, PartialEq, Eq, Structural)]
pub enum StateNodeKind {
    Normal,
    StartEnd,
    Choice,
    Fork,
    Join,
}

impl Default for StateNodeKind {
    fn default() -> (r: StateNodeKind)
        ensures
            r == StateNodeKind::Normal,
    {
        StateNodeKind::Normal
    }
}

#[derive(Clone, Debug)]
pub struct StateNode {
    pub id: String,
    pub label: String,
    pub kind: StateNodeKind,
}

#[derive(Clone, Debug)]
pub struct Transition {
    pub from: String,
    pub to: String,
    pub label: String,
}

#[derive(Clone, Debug)]
pub struct StateDiagram {
    pub states: Vec<StateNode>,
    pub transitions: Vec<Transition>,
}

#[derive(Clone, Debug)]
pub struct ParseError {
    pub message: String,
    pub line: Option<usize>,
}

/// The pseudo-state written `[*]`.
pub open spec fn start_end() -> Seq<char> {
    "[*]"@
}

// ---------------------------------------------------------------- values

pub type StateV = (Seq<char>, Seq<char>, StateNodeKind);

pub type TransV = (Seq<char>, Seq<char>, Seq<char>);

#[verifier::ext_equal]
pub ghost struct StateDiagramV {
    pub states: Seq<StateV>,
    pub transitions: Seq<TransV>,
}

pub open spec fn sd_v(d: StateDiagram) -> StateDiagramV {
    StateDiagramV {
        states: Seq::new(d.states@.len(), |i: int| (d.states@[i].id@, d.states@[i].label@, d.states@[i].kind)),
        transitions: Seq::new(d.transitions@.len(), |i: int| (d.transitions@[i].from@, d.transitions@[i].to@, d.transitions@[i].label@)),
    }
}

// ---------------------------------------------------------------- maps

/// Position of the first occurrence of `k` in `keys` at or after `i`.
pub open spec fn key_pos_from(keys: Seq<Seq<char>>, k: Seq<char>, i: int) -> Option<int>
    decreases keys.len() - i,
{
    if i < 0 || i >= keys.len() {
        None
    } else if keys[i] == k {
        Some(i)
    } else {
        key_pos_from(keys, k, i + 1)
    }
}

pub open spec fn key_pos(keys: Seq<Seq<char>>, k: Seq<char>) -> Option<int> {
    key_pos_from(keys, k, 0)
}

pub proof fn lemma_key_pos_from(keys: Seq<Seq<char>>, k: Seq<char>, i: int)
    requires
        0 <= i,
    ensures
        match key_pos_from(keys, k, i) {
            Some(j) => i <= j < keys.len() && keys[j] == k && forall|l: int| i <= l < j ==> keys[l] != k,
            None => forall|l: int| i <= l < keys.len() ==> keys[l] != k,
        },
    decreases keys.len() - i,
{
    if i < keys.len() && keys[i] != k {
        lemma_key_pos_from(keys, k, i + 1);
    }
}

pub open spec fn keys_of<V>(m: Seq<(Seq<char>, V)>) -> Seq<Seq<char>> {
    Seq::new(m.len(), |i: int| m[i].0)
}

/// Value stored for a key in an association list.
pub open spec fn lookup<V>(m: Seq<(Seq<char>, V)>, k: Seq<char>) -> Option<V> {
    match key_pos(keys_of(m), k) {
        Some(i) => Some(m[i].1),
        None => None,
    }
}

/// Insert or replace (`HashMap::insert`), keeping first-insertion order.
pub open spec fn assoc_insert<V>(m: Seq<(Seq<char>, V)>, k: Seq<char>, v: V) -> Seq<(Seq<char>, V)> {
    match key_pos(keys_of(m), k) {
        Some(i) => m.update(i, (k, v)),
        None => m.push((k, v)),
    }
}

/// Insert only when absent (`entry().or_insert`).
pub open spec fn assoc_default<V>(m: Seq<(Seq<char>, V)>, k: Seq<char>, v: V) -> Seq<(Seq<char>, V)> {
    match key_pos(keys_of(m), k) {
        Some(i) => m,
        None => m.push((k, v)),
    }
}

// ---------------------------------------------------------------- grammar

/// Index at which `p` last occurs in `s`.
pub open spec fn rfind_before(s: Seq<char>, p: Seq<char>, j: int) -> Option<int>
    decreases j + 1,
{
    if j < 0 {
        None
    } else if occurs_at(s, p, j) {
        Some(j)
    } else {
        rfind_before(s, p, j - 1)
    }
}

pub open spec fn rfind(s: Seq<char>, p: Seq<char>) -> Option<int> {
    rfind_before(s, p, s.len() - p.len())
}

/// A quoted string or a word, and what follows.
pub open spec fn quoted_or_word(s0: Seq<char>) -> Option<(Seq<char>, Seq<char>)> {
    let s = trim_start(s0);
    if s.len() > 0 && s[0] == '"' {
        let rest = s.subrange(1, s.len() as int);
        match find_char(rest, '"') {
            Some(end) => Some((rest.subrange(0, end), trim_start(rest.subrange(end + 1, rest.len() as int)))),
            None => None,
        }
    } else {
        let end = match crate::text::first(s, |c: char| is_ws(c)) {
            Some(e) => e,
            None => s.len() as int,
        };
        Some((s.subrange(0, end), s.subrange(end, s.len() as int)))
    }
}

/// `"Label" as Id`.
pub open spec fn state_as(rest: Seq<char>) -> Option<(Seq<char>, Seq<char>)> {
    match quoted_or_word(trim(rest)) {
        Some((quoted, after)) => match strip_prefix(trim(after), "as "@) {
            Some(id0) => {
                let id = trim(id0);
                if id.len() == 0 {
                    None
                } else {
                    Some((quoted, id))
                }
            },
            None => None,
        },
        None => None,
    }
}

pub open spec fn kind_keyword(k: Seq<char>) -> StateNodeKind {
    if k == "choice"@ {
        StateNodeKind::Choice
    } else if k == "fork"@ {
        StateNodeKind::Fork
    } else if k == "join"@ {
        StateNodeKind::Join
    } else {
        StateNodeKind::Normal
    }
}

/// `Id <<choice>>`.
pub open spec fn state_stereotype(rest0: Seq<char>) -> Option<(Seq<char>, StateNodeKind)> {
    let rest = trim(rest0);
    match rfind(rest, "<<"@) {
        Some(open) => match find(rest.subrange(open, rest.len() as int), ">>"@) {
            Some(close) => {
                let id = trim(rest.subrange(0, open));
                if id.len() == 0 || close < 2 {
                    None
                } else {
                    Some((id, kind_keyword(lowercase(trim(rest.subrange(open + 2, open + close))))))
                }
            },
            None => None,
        },
        None => None,
    }
}

/// `A --> B : label`.
pub open spec fn transition_line(line: Seq<char>) -> Option<TransV> {
    match split_once(line, "-->"@) {
        Some((l, r)) => {
            let left = trim(l);
            let rest = trim(r);
            let (right, label) = match split_once(rest, ":"@) {
                Some((a, b)) => (trim(a), trim(b)),
                None => (rest, Seq::empty()),
            };
            if left.len() == 0 || right.len() == 0 {
                None
            } else {
                Some((left, right, label))
            }
        },
        None => None,
    }
}

/// Depth after an opening brace (saturating at the largest machine value).
pub open spec fn deeper(depth: nat) -> nat {
    if depth < usize::MAX {
        depth + 1
    } else {
        depth
    }
}

/// Scan the characters of a line from `k` at brace depth `depth`: whether an
/// unmatched `}` closes the block, and the depth after the line.
pub open spec fn brace_scan(t: Seq<char>, k: int, depth: nat) -> (bool, nat)
    decreases t.len() - k,
{
    if k < 0 || k >= t.len() {
        (false, depth)
    } else if t[k] == '{' {
        brace_scan(t, k + 1, deeper(depth))
    } else if t[k] == '}' {
        if depth == 0 {
            (true, depth)
        } else {
            brace_scan(t, k + 1, (depth - 1) as nat)
        }
    } else {
        brace_scan(t, k + 1, depth)
    }
}

/// Index of the line that closes a composite state block opened at or after `i`.
pub open spec fn block_end(ls: Seq<(int, Seq<char>)>, i: int, depth: nat) -> Option<int>
    decreases ls.len() - i,
{
    if i < 0 || i >= ls.len() {
        None
    } else {
        let (hit, d2) = brace_scan(ls[i].1, 0, depth);
        if hit || (d2 == 0 && ls[i].1.contains('}')) {
            Some(i)
        } else {
            block_end(ls, i + 1, d2)
        }
    }
}

pub proof fn lemma_block_end(ls: Seq<(int, Seq<char>)>, i: int, depth: nat)
    requires
        0 <= i,
    ensures
        block_end(ls, i, depth) matches Some(j) ==> i <= j < ls.len(),
    decreases ls.len() - i,
{
    if i < ls.len() {
        let (hit, d2) = brace_scan(ls[i].1, 0, depth);
        if !(hit || (d2 == 0 && ls[i].1.contains('}'))) {
            lemma_block_end(ls, i + 1, d2);
        }
    }
}

/// Reader state.
#[verifier::ext_equal]
pub ghost struct StSt {
    pub labels: Seq<(Seq<char>, Seq<char>)>,
    pub kinds: Seq<(Seq<char>, StateNodeKind)>,
    pub transitions: Seq<TransV>,
}

pub open spec fn mark_start_end(kinds: Seq<(Seq<char>, StateNodeKind)>, id: Seq<char>) -> Seq<(Seq<char>, StateNodeKind)> {
    if id == start_end() {
        assoc_insert(kinds, start_end(), StateNodeKind::StartEnd)
    } else {
        kinds
    }
}

/// A `state ...` declaration line without braces.
pub open spec fn state_decl(st: StSt, n: int, text: Seq<char>) -> Result<StSt, (Seq<char>, Option<int>)> {
    let rest = text.subrange(6, text.len() as int);
    if let Some((quoted, id)) = state_as(rest) {
        Ok(StSt { labels: assoc_insert(st.labels, id, quoted), ..st })
    } else if let Some((id, kind)) = state_stereotype(rest) {
        Ok(StSt { kinds: assoc_insert(st.kinds, id, kind), labels: assoc_default(st.labels, id, id), ..st })
    } else {
        Err(("invalid state declaration: "@ + text, Some(n)))
    }
}

/// One line at index `i`: the index of the next line to read and the new state.
pub open spec fn st_step(ls: Seq<(int, Seq<char>)>, i: int, st: StSt) -> Result<(int, StSt), (Seq<char>, Option<int>)> {
    let (n, text) = ls[i];
    if "state "@.is_prefix_of(text) {
        if text.contains('{') {
            match block_end(ls, i, 0) {
                Some(j) => Ok((j + 1, st)),
                None => Err(("unclosed composite state block"@, Some(n))),
            }
        } else {
            match state_decl(st, n, text) {
                Ok(s2) => Ok((i + 1, s2)),
                Err(e) => Err(e),
            }
        }
    } else if let Some(t) = transition_line(text) {
        Ok((i + 1, StSt {
            kinds: mark_start_end(mark_start_end(st.kinds, t.0), t.1),
            transitions: st.transitions.push(t),
            ..st
        }))
    } else {
        Err(("unrecognized state diagram line: "@ + text, Some(n)))
    }
}

/// Lines `i..`: the state after them, or an error.
pub open spec fn st_run(ls: Seq<(int, Seq<char>)>, i: int, st: StSt) -> Result<StSt, (Seq<char>, Option<int>)>
    decreases ls.len() - i,
{
    if i < 1 || i >= ls.len() {
        Ok(st)
    } else {
        match st_step(ls, i, st) {
            Ok((j, s2)) => if i < j && j <= ls.len() {
                st_run(ls, j, s2)
            } else {
                Ok(s2)
            },
            Err(e) => Err(e),
        }
    }
}

/// Each id once, in order of first appearance.
pub open spec fn dedup(ids: Seq<Seq<char>>) -> Seq<Seq<char>>
    decreases ids.len(),
{
    if ids.len() == 0 {
        Seq::empty()
    } else {
        let prev = dedup(ids.drop_last());
        if prev.contains(ids.last()) {
            prev
        } else {
            prev.push(ids.last())
        }
    }
}

/// Declared ids, then the endpoints of transitions.
pub open spec fn state_ids(st: StSt) -> Seq<Seq<char>> {
    dedup(Seq::new(st.labels.len(), |i: int| st.labels[i].0) + flat_ends(st.transitions))
}

pub open spec fn flat_ends(ts: Seq<TransV>) -> Seq<Seq<char>>
    decreases ts.len(),
{
    if ts.len() == 0 {
        Seq::empty()
    } else {
        flat_ends(ts.drop_last()).push(ts.last().0).push(ts.last().1)
    }
}

/// The node for an id: its declared kind and label, else the defaults.
pub open spec fn state_node(st: StSt, id: Seq<char>) -> StateV {
    let kind = match lookup(st.kinds, id) {
        Some(k) => k,
        None => if id == start_end() {
            StateNodeKind::StartEnd
        } else {
            StateNodeKind::Normal
        },
    };
    let label = match lookup(st.labels, id) {
        Some(l) => l,
        None => id,
    };
    (id, label, kind)
}

/// What parsing a state diagram source gives. States come in order of first
/// appearance.
pub open spec fn state_parse(src: Seq<char>) -> Result<StateDiagramV, (Seq<char>, Option<int>)> {
    let ls = kept_numbered(lines(src), |l: Seq<char>| keep_content(l));
    if ls.len() == 0 {
        Err(("expected stateDiagram-v2 header"@, None))
    } else if !("stateDiagram"@.is_prefix_of(ls[0].1)) {
        Err(("expected stateDiagram-v2 header"@, Some(ls[0].0)))
    } else {
        match st_run(ls, 1, StSt { labels: Seq::empty(), kinds: Seq::empty(), transitions: Seq::empty() }) {
            Ok(st) => {
                let ids = state_ids(st);
                Ok(StateDiagramV {
                    states: Seq::new(ids.len(), |i: int| state_node(st, ids[i])),
                    transitions: st.transitions,
                })
            },
            Err(e) => Err(e),
        }
    }
}


// ---------------------------------------------------------------- reading

fn trimmed(s: &[char]) -> (r: Vec<char>)
    ensures
        r@ == trim(s@),
{
    slice_to_vec(trim_slice(s))
}

/// Last index at which `p` occurs in `s`.
fn rfind_slice(s: &[char], p: &[char]) -> (r: Option<usize>)
    ensures
        r matches Some(j) ==> rfind(s@, p@) == Some(j as int),
        r is None ==> rfind(s@, p@) is None,
        r matches Some(o) ==> o + p@.len() <= s@.len(),
{
    if p.len() > s.len() {
        assert(rfind_before(s@, p@, s@.len() - p@.len()) is None);
        return None;
    }
    let mut j: usize = s.len() - p.len();
    loop
        invariant
            j <= s@.len() - p@.len(),
            p@.len() <= s@.len(),
            rfind(s@, p@) == rfind_before(s@, p@, j as int),
        decreases j,
    {
        if matches_at(s, p, j) {
            return Some(j);
        }
        if j == 0 {
            assert(rfind_before(s@, p@, -1) is None);
            return None;
        }
        j = j - 1;
    }
}

/// Index of the first whitespace character of `s`, or its length.
fn word_end(s: &[char]) -> (r: usize)
    ensures
        r == match crate::text::first(s@, |c: char| is_ws(c)) {
            Some(e) => e,
            None => s@.len() as int,
        },
        r <= s@.len(),
{
    let ghost f = |c: char| is_ws(c);
    let mut i: usize = 0;
    while i < s.len()
        invariant
            i <= s@.len(),
            f == (|c: char| is_ws(c)),
            crate::text::first(s@, f) == crate::text::first_from(s@, f, i as int),
        decreases s@.len() - i,
    {
        if is_whitespace(s[i]) {
            return i;
        }
        i = i + 1;
    }
    i
}

fn quoted_or_word_exec(s0: &[char]) -> (r: Option<(Vec<char>, Vec<char>)>)
    ensures
        match quoted_or_word(s0@) {
            Some((a, b)) => r matches Some((x, y)) && x@ == a && y@ == b,
            None => r is None,
        },
{
    let k = trim_start_index(s0);
    let s = &s0[k..s0.len()];
    assert(s@ == trim_start(s0@));
    if s.len() > 0 && s[0] == '"' {
        let rest = &s[1..s.len()];
        assert(rest@ == s@.subrange(1, s@.len() as int));
        proof {
            lemma_find_char_from(rest@, '"', 0);
        }
        match find_char_slice(rest, '"') {
            Some(end) => {
                let a = slice_to_vec(&rest[0..end]);
                let t = &rest[end + 1..rest.len()];
                let b = slice_to_vec(&t[trim_start_index(t)..t.len()]);
                Some((a, b))
            },
            None => None,
        }
    } else {
        let end = word_end(s);
        Some((slice_to_vec(&s[0..end]), slice_to_vec(&s[end..s.len()])))
    }
}

fn state_as_exec(rest: &[char]) -> (r: Option<(Vec<char>, Vec<char>)>)
    ensures
        match state_as(rest@) {
            Some((a, b)) => r matches Some((x, y)) && x@ == a && y@ == b,
            None => r is None,
        },
{
    let t = trim_slice(rest);
    let (quoted, after) = match quoted_or_word_exec(t) {
        Some(p) => p,
        None => return None,
    };
    match strip_prefix_exec(trim_slice(after.as_slice()), "as ") {
        Some(id0) => {
            let id = trimmed(id0.as_slice());
            if id.len() == 0 {
                None
            } else {
                Some((quoted, id))
            }
        },
        None => None,
    }
}

fn kind_keyword_exec(k: &str) -> (r: StateNodeKind)
    ensures
        r == kind_keyword(k@),
{
    if str_eq(k, "choice") {
        StateNodeKind::Choice
    } else if str_eq(k, "fork") {
        StateNodeKind::Fork
    } else if str_eq(k, "join") {
        StateNodeKind::Join
    } else {
        StateNodeKind::Normal
    }
}

fn state_stereotype_exec(rest0: &[char]) -> (r: Option<(Vec<char>, StateNodeKind)>)
    ensures
        match state_stereotype(rest0@) {
            Some((a, k)) => r matches Some((x, y)) && x@ == a && y == k,
            None => r is None,
        },
{
    let rest = trim_slice(rest0);
    let lt = chars_of("<<");
    let gt = chars_of(">>");
    proof {
        reveal_strlit("<<");
        reveal_strlit(">>");
    }
    let open = match rfind_slice(rest, lt.as_slice()) {
        Some(o) => o,
        None => return None,
    };
    let tail = &rest[open..rest.len()];
    assert(tail@ == rest@.subrange(open as int, rest@.len() as int));
    let close = match find_slice(tail, gt.as_slice()) {
        Some(c) => c,
        None => return None,
    };
    proof {
        crate::text::lemma_find_from(tail@, gt@, 0);
    }
    let id = trimmed(&rest[0..open]);
    if id.len() == 0 || close < 2 {
        return None;
    }
    let word = string_of(trim_slice(&rest[open + 2..open + close]));
    let low = to_lowercase(word.as_str());
    Some((id, kind_keyword_exec(low.as_str())))
}

fn transition_line_exec(line: &[char]) -> (r: Option<(Vec<char>, Vec<char>, Vec<char>)>)
    ensures
        match transition_line(line@) {
            Some(t) => r matches Some((a, b, c)) && a@ == t.0 && b@ == t.1 && c@ == t.2,
            None => r is None,
        },
{
    let (l, rr) = match split_once_exec(line, "-->") {
        Some(p) => p,
        None => return None,
    };
    let left = trimmed(l.as_slice());
    let rest = trimmed(rr.as_slice());
    let (right, label) = match split_once_exec(rest.as_slice(), ":") {
        Some((a, b)) => (trimmed(a.as_slice()), trimmed(b.as_slice())),
        None => (rest, Vec::new()),
    };
    if left.len() == 0 || right.len() == 0 {
        None
    } else {
        Some((left, right, label))
    }
}

fn brace_scan_exec(t: &[char], depth0: usize) -> (r: (bool, usize))
    ensures
        r.0 == brace_scan(t@, 0, depth0 as nat).0,
        r.1 as nat == brace_scan(t@, 0, depth0 as nat).1,
{
    let mut depth = depth0;
    let mut k: usize = 0;
    while k < t.len()
        invariant
            k <= t@.len(),
            brace_scan(t@, 0, depth0 as nat) == brace_scan(t@, k as int, depth as nat),
        decreases t@.len() - k,
    {
        let c = t[k];
        if c == '{' {
            if depth < usize::MAX {
                depth = depth + 1;
            }
        } else if c == '}' {
            if depth == 0 {
                return (true, 0);
            }
            depth = depth - 1;
        }
        k = k + 1;
    }
    (false, depth)
}

fn block_end_exec(ls: &Vec<(usize, Vec<char>)>, start: usize) -> (r: Option<usize>)
    requires
        start < ls@.len(),
    ensures
        r matches Some(j) ==> block_end(numbered(ls@), start as int, 0) == Some(j as int),
        r is None ==> block_end(numbered(ls@), start as int, 0) is None,
{
    let ghost nl = numbered(ls@);
    let mut depth: usize = 0;
    let mut i = start;
    while i < ls.len()
        invariant
            start <= i <= ls@.len(),
            nl == numbered(ls@),
            block_end(nl, start as int, 0) == block_end(nl, i as int, depth as nat),
        decreases ls@.len() - i,
    {
        assert(nl[i as int].1 == ls@[i as int].1@);
        let (hit, d2) = brace_scan_exec(ls[i].1.as_slice(), depth);
        if hit || (d2 == 0 && contains_char(ls[i].1.as_slice(), '}')) {
            return Some(i);
        }
        depth = d2;
        i = i + 1;
    }
    None
}

/// The reader state as executable values, keys and values side by side.
struct StX {
    label_keys: Vec<Vec<char>>,
    label_vals: Vec<Vec<char>>,
    kind_keys: Vec<Vec<char>>,
    kind_vals: Vec<StateNodeKind>,
    transitions: Vec<Transition>,
}

spec fn trans_v(t: Transition) -> TransV {
    (t.from@, t.to@, t.label@)
}

spec fn stx_wf(x: StX) -> bool {
    x.label_keys@.len() == x.label_vals@.len() && x.kind_keys@.len() == x.kind_vals@.len()
}

spec fn stx_v(x: StX) -> StSt {
    StSt {
        labels: Seq::new(x.label_keys@.len(), |i: int| (x.label_keys@[i]@, x.label_vals@[i]@)),
        kinds: Seq::new(x.kind_keys@.len(), |i: int| (x.kind_keys@[i]@, x.kind_vals@[i])),
        transitions: Seq::new(x.transitions@.len(), |i: int| trans_v(x.transitions@[i])),
    }
}

/// Position of `k` among `keys`.
pub(crate) fn pos_in(keys: &Vec<Vec<char>>, k: &[char]) -> (r: Option<usize>)
    ensures
        r matches Some(j) ==> key_pos(crate::text::seqs(keys@), k@) == Some(j as int),
        r is None ==> key_pos(crate::text::seqs(keys@), k@) is None,
        r matches Some(j) ==> j < keys@.len() && keys@[j as int]@ == k@,
{
    let ghost ks = crate::text::seqs(keys@);
    let mut i: usize = 0;
    while i < keys.len()
        invariant
            i <= keys@.len(),
            ks == crate::text::seqs(keys@),
            key_pos(ks, k@) == key_pos_from(ks, k@, i as int),
        decreases keys@.len() - i,
    {
        assert(ks[i as int] == keys@[i as int]@);
        if eq_slice(keys[i].as_slice(), k) {
            return Some(i);
        }
        i = i + 1;
    }
    None
}

fn insert_label(x: &mut StX, k: &[char], v: &[char])
    requires
        stx_wf(*old(x)),
    ensures
        stx_wf(*final(x)),
        stx_v(*final(x)) == (StSt { labels: assoc_insert(stx_v(*old(x)).labels, k@, v@), ..stx_v(*old(x)) }),
{
    let ghost x0 = stx_v(*x);
    let ghost m = stx_v(*x).labels;
    assert(keys_of(m) =~= crate::text::seqs(x.label_keys@));
    match pos_in(&x.label_keys, k) {
        Some(j) => {
            x.label_vals.set(j, slice_to_vec(v));
            x.label_keys.set(j, slice_to_vec(k));
            assert(stx_v(*x).labels =~= m.update(j as int, (k@, v@)));
        },
        None => {
            x.label_keys.push(slice_to_vec(k));
            x.label_vals.push(slice_to_vec(v));
            assert(stx_v(*x).labels =~= m.push((k@, v@)));
        },
    }
    assert(stx_v(*x).kinds =~= x0.kinds);
    assert(stx_v(*x).transitions =~= x0.transitions);
    assert(stx_v(*x) =~= (StSt { labels: assoc_insert(x0.labels, k@, v@), ..x0 }));
}

fn default_label(x: &mut StX, k: &[char])
    requires
        stx_wf(*old(x)),
    ensures
        stx_wf(*final(x)),
        stx_v(*final(x)) == (StSt { labels: assoc_default(stx_v(*old(x)).labels, k@, k@), ..stx_v(*old(x)) }),
{
    let ghost m = stx_v(*x).labels;
    assert(keys_of(m) =~= crate::text::seqs(x.label_keys@));
    match pos_in(&x.label_keys, k) {
        Some(j) => {},
        None => {
            x.label_keys.push(slice_to_vec(k));
            x.label_vals.push(slice_to_vec(k));
            assert(stx_v(*x).labels =~= m.push((k@, k@)));
        },
    }
    assert(stx_v(*x).kinds =~= stx_v(*old(x)).kinds);
    assert(stx_v(*x).transitions =~= stx_v(*old(x)).transitions);
}

fn insert_kind(x: &mut StX, k: &[char], v: StateNodeKind)
    requires
        stx_wf(*old(x)),
    ensures
        stx_wf(*final(x)),
        stx_v(*final(x)) == (StSt { kinds: assoc_insert(stx_v(*old(x)).kinds, k@, v), ..stx_v(*old(x)) }),
{
    let ghost x0 = stx_v(*x);
    let ghost m = stx_v(*x).kinds;
    assert(keys_of(m) =~= crate::text::seqs(x.kind_keys@));
    match pos_in(&x.kind_keys, k) {
        Some(j) => {
            x.kind_vals.set(j, v);
            x.kind_keys.set(j, slice_to_vec(k));
            assert(stx_v(*x).kinds =~= m.update(j as int, (k@, v)));
        },
        None => {
            x.kind_keys.push(slice_to_vec(k));
            x.kind_vals.push(v);
            assert(stx_v(*x).kinds =~= m.push((k@, v)));
        },
    }
    assert(stx_v(*x).labels =~= x0.labels);
    assert(stx_v(*x).transitions =~= x0.transitions);
    assert(stx_v(*x) =~= (StSt { kinds: assoc_insert(x0.kinds, k@, v), ..x0 }));
}

fn mark_start_end_exec(x: &mut StX, id: &[char])
    requires
        stx_wf(*old(x)),
    ensures
        stx_wf(*final(x)),
        stx_v(*final(x)) == (StSt { kinds: mark_start_end(stx_v(*old(x)).kinds, id@), ..stx_v(*old(x)) }),
{
    let se = chars_of("[*]");
    if eq_slice(id, se.as_slice()) {
        insert_kind(x, se.as_slice(), StateNodeKind::StartEnd);
    } else {
        assert(stx_v(*x) =~= (StSt { kinds: mark_start_end(stx_v(*old(x)).kinds, id@), ..stx_v(*old(x)) }));
    }
}

fn perr(msg: &str, line: Option<usize>) -> (e: ParseError)
    ensures
        e.message@ == msg@,
        e.line == line,
{
    ParseError { message: String::from_str(msg), line }
}

pub open spec fn serr(e: ParseError) -> (Seq<char>, Option<int>) {
    (e.message@, match e.line {
        Some(n) => Some(n as int),
        None => None,
    })
}

fn state_decl_exec(x: &mut StX, n: usize, text: &[char]) -> (r: Result<(), ParseError>)
    requires
        stx_wf(*old(x)),
        text@.len() >= 6,
    ensures
        stx_wf(*final(x)),
        match state_decl(stx_v(*old(x)), n as int, text@) {
            Ok(st) => r is Ok && stx_v(*final(x)) == st,
            Err(e) => r matches Err(y) && serr(y) == e,
        },
{
    let rest = &text[6..text.len()];
    assert(rest@ == text@.subrange(6, text@.len() as int));
    if let Some((quoted, id)) = state_as_exec(rest) {
        insert_label(x, id.as_slice(), quoted.as_slice());
        return Ok(());
    }
    if let Some((id, kind)) = state_stereotype_exec(rest) {
        insert_kind(x, id.as_slice(), kind);
        default_label(x, id.as_slice());
        return Ok(());
    }
    let mut msg = String::from_str("invalid state declaration: ");
    push_chars(&mut msg, text);
    Err(ParseError { message: msg, line: Some(n) })
}

fn st_step_exec(x: &mut StX, ls: &Vec<(usize, Vec<char>)>, i: usize) -> (r: Result<usize, ParseError>)
    requires
        stx_wf(*old(x)),
        1 <= i < ls@.len(),
    ensures
        stx_wf(*final(x)),
        match st_step(numbered(ls@), i as int, stx_v(*old(x))) {
            Ok((j, st)) => r matches Ok(k) && k == j && stx_v(*final(x)) == st && i < k <= ls@.len(),
            Err(e) => r matches Err(y) && serr(y) == e,
        },
{
    let ghost nl = numbered(ls@);
    let len = ls.len();
    assert(nl[i as int] == (ls@[i as int].0 as int, ls@[i as int].1@));
    let n = ls[i].0;
    let text = ls[i].1.as_slice();
    let kw = chars_of("state ");
    proof {
        reveal_strlit("state ");
    }
    if starts_with(text, kw.as_slice()) {
        if contains_char(text, '{') {
            proof {
                lemma_block_end(nl, i as int, 0);
            }
            return match block_end_exec(ls, i) {
                Some(j) => Ok(j + 1),
                None => Err(perr("unclosed composite state block", Some(n))),
            };
        }
        match state_decl_exec(x, n, text) {
            Ok(()) => return Ok(i + 1),
            Err(e) => return Err(e),
        }
    }
    match transition_line_exec(text) {
        Some((from, to, label)) => {
            mark_start_end_exec(x, from.as_slice());
            mark_start_end_exec(x, to.as_slice());
            let t = Transition { from: string_of(from.as_slice()), to: string_of(to.as_slice()), label: string_of(label.as_slice()) };
            let ghost before = stx_v(*x);
            x.transitions.push(t);
            assert(stx_v(*x).transitions =~= before.transitions.push((from@, to@, label@)));
            assert(stx_v(*x).labels =~= before.labels);
            assert(stx_v(*x).kinds =~= before.kinds);
            Ok(i + 1)
        },
        None => {
            let mut msg = String::from_str("unrecognized state diagram line: ");
            push_chars(&mut msg, text);
            Err(ParseError { message: msg, line: Some(n) })
        },
    }
}


/// The ids of the states, each once, in order of first appearance.
fn state_ids_exec(x: &StX) -> (r: Vec<Vec<char>>)
    ensures
        crate::text::seqs(r@) == state_ids(stx_v(*x)),
{
    let ghost st = stx_v(*x);
    let ghost keys = Seq::new(st.labels.len(), |i: int| st.labels[i].0);
    let mut all: Vec<Vec<char>> = Vec::new();
    let mut i: usize = 0;
    while i < x.label_keys.len()
        invariant
            i <= x.label_keys@.len(),
            st == stx_v(*x),
            keys == Seq::new(st.labels.len(), |i: int| st.labels[i].0),
            crate::text::seqs(all@) =~= keys.take(i as int),
        decreases x.label_keys@.len() - i,
    {
        let ghost prev = crate::text::seqs(all@);
        all.push(slice_to_vec(x.label_keys[i].as_slice()));
        assert(crate::text::seqs(all@) =~= prev.push(keys[i as int]));
        assert(keys.take(i + 1) =~= keys.take(i as int).push(keys[i as int]));
        i = i + 1;
    }
    assert(keys.take(x.label_keys@.len() as int) =~= keys);
    let mut i: usize = 0;
    while i < x.transitions.len()
        invariant
            i <= x.transitions@.len(),
            st == stx_v(*x),
            keys == Seq::new(st.labels.len(), |i: int| st.labels[i].0),
            crate::text::seqs(all@) =~= keys + flat_ends(st.transitions.take(i as int)),
        decreases x.transitions@.len() - i,
    {
        assert(st.transitions.take(i + 1).drop_last() =~= st.transitions.take(i as int));
        let t = &x.transitions[i];
        let ghost prev = crate::text::seqs(all@);
        all.push(chars_of(t.from.as_str()));
        all.push(chars_of(t.to.as_str()));
        assert(st.transitions[i as int] == trans_v(*t));
        assert(crate::text::seqs(all@) =~= prev.push(t.from@).push(t.to@));
        i = i + 1;
    }
    assert(st.transitions.take(x.transitions@.len() as int) =~= st.transitions);
    let ghost full = crate::text::seqs(all@);
    let mut out: Vec<Vec<char>> = Vec::new();
    let mut i: usize = 0;
    while i < all.len()
        invariant
            i <= all@.len(),
            full == crate::text::seqs(all@),
            crate::text::seqs(out@) == dedup(full.take(i as int)),
        decreases all@.len() - i,
    {
        assert(full.take(i + 1).drop_last() =~= full.take(i as int));
        assert(full[i as int] == all@[i as int]@);
        let ghost prev = crate::text::seqs(out@);
        proof {
            lemma_key_pos_from(prev, full[i as int], 0);
        }
        if pos_in(&out, all[i].as_slice()).is_none() {
            assert(!prev.contains(full[i as int]));
            out.push(slice_to_vec(all[i].as_slice()));
            assert(crate::text::seqs(out@) =~= prev.push(full[i as int]));
        } else {
            assert(prev.contains(full[i as int]));
        }
        i = i + 1;
    }
    assert(full.take(all@.len() as int) =~= full);
    out
}

fn state_node_exec(x: &StX, id: &[char]) -> (r: StateNode)
    requires
        stx_wf(*x),
    ensures
        (r.id@, r.label@, r.kind) == state_node(stx_v(*x), id@),
{
    let ghost st = stx_v(*x);
    assert(keys_of(st.kinds) =~= crate::text::seqs(x.kind_keys@));
    assert(keys_of(st.labels) =~= crate::text::seqs(x.label_keys@));
    let se = chars_of("[*]");
    let kind = match pos_in(&x.kind_keys, id) {
        Some(j) => x.kind_vals[j],
        None => if eq_slice(id, se.as_slice()) {
            StateNodeKind::StartEnd
        } else {
            StateNodeKind::Normal
        },
    };
    let label = match pos_in(&x.label_keys, id) {
        Some(j) => string_of(x.label_vals[j].as_slice()),
        None => string_of(id),
    };
    StateNode { id: string_of(id), label, kind }
}

/// Whether the first content line starts a state diagram.
pub fn is_state(source: &str) -> (b: bool)
    ensures
        b == crate::sequence::first_content_starts(source@, "stateDiagram"@),
{
    let ls = numbered_lines(source);
    let ghost nl = numbered(ls@);
    if ls.len() == 0 {
        return false;
    }
    assert(nl[0] == (ls@[0].0 as int, ls@[0].1@));
    starts_with(ls[0].1.as_slice(), chars_of("stateDiagram").as_slice())
}

/// Read a Mermaid state diagram.
pub fn parse(source: &str) -> (r: Result<StateDiagram, ParseError>)
    ensures
        match state_parse(source@) {
            Ok(v) => r matches Ok(d) && sd_v(d) == v,
            Err(e) => r matches Err(x) && serr(x) == e,
        },
{
    let ls = numbered_lines(source);
    let ghost nl = numbered(ls@);
    if ls.len() == 0 {
        return Err(perr("expected stateDiagram-v2 header", None));
    }
    assert(nl[0] == (ls@[0].0 as int, ls@[0].1@));
    if !starts_with(ls[0].1.as_slice(), chars_of("stateDiagram").as_slice()) {
        return Err(perr("expected stateDiagram-v2 header", Some(ls[0].0)));
    }
    let mut x = StX {
        label_keys: Vec::new(),
        label_vals: Vec::new(),
        kind_keys: Vec::new(),
        kind_vals: Vec::new(),
        transitions: Vec::new(),
    };
    let ghost empty = StSt { labels: Seq::empty(), kinds: Seq::empty(), transitions: Seq::empty() };
    assert(stx_v(x) =~= empty);
    let mut i: usize = 1;
    while i < ls.len()
        invariant
            1 <= i <= ls@.len(),
            stx_wf(x),
            nl == numbered(ls@),
            nl == kept_numbered(lines(source@), |l: Seq<char>| keep_content(l)),
            nl.len() > 0 && "stateDiagram"@.is_prefix_of(nl[0].1),
            empty == (StSt { labels: Seq::empty(), kinds: Seq::empty(), transitions: Seq::empty() }),
            st_run(nl, i as int, stx_v(x)) == st_run(nl, 1, empty),
        decreases ls@.len() - i,
    {
        let ghost st0 = stx_v(x);
        match st_step_exec(&mut x, &ls, i) {
            Ok(k) => {
                i = k;
            },
            Err(e) => {
                return Err(e);
            },
        }
    }
    let ghost st = stx_v(x);
    let ids = state_ids_exec(&x);
    let ghost idv = crate::text::seqs(ids@);
    let mut states: Vec<StateNode> = Vec::new();
    let mut j: usize = 0;
    while j < ids.len()
        invariant
            j <= ids@.len(),
            stx_wf(x),
            st == stx_v(x),
            idv == crate::text::seqs(ids@),
            states@.len() == j,
            forall|k: int| 0 <= k < j ==> (#[trigger] states@[k].id@, states@[k].label@, states@[k].kind) == state_node(st, idv[k]),
        decreases ids@.len() - j,
    {
        assert(idv[j as int] == ids@[j as int]@);
        states.push(state_node_exec(&x, ids[j].as_slice()));
        j = j + 1;
    }
    let d = StateDiagram { states, transitions: x.transitions };
    assert(sd_v(d).states =~= Seq::new(idv.len(), |i: int| state_node(st, idv[i])));
    assert(sd_v(d).transitions =~= st.transitions);
    Ok(d)
}

// ---------------------------------------------------------------- writing

/// Mermaid line of a state, if it needs one.
pub open spec fn state_line(s: StateV) -> Seq<char> {
    if s.0 == start_end() {
        Seq::empty()
    } else {
        match s.2 {
            StateNodeKind::Normal => if s.1 != s.0 {
                "    state \""@ + crate::class::escape_note(s.1) + "\" as "@ + s.0 + "\n"@
            } else {
                Seq::empty()
            },
            StateNodeKind::Choice => "    state "@ + s.0 + " <<choice>>\n"@,
            StateNodeKind::Fork => "    state "@ + s.0 + " <<fork>>\n"@,
            StateNodeKind::Join => "    state "@ + s.0 + " <<join>>\n"@,
            StateNodeKind::StartEnd => Seq::empty(),
        }
    }
}

/// Mermaid line of a transition.
pub open spec fn transition_text(t: TransV) -> Seq<char> {
    if t.2.len() == 0 {
        "    "@ + t.0 + " --> "@ + t.1 + "\n"@
    } else {
        "    "@ + t.0 + " --> "@ + t.1 + ": "@ + t.2 + "\n"@
    }
}

/// Mermaid text of a state diagram.
pub open spec fn state_mermaid(d: StateDiagramV) -> Seq<char> {
    "stateDiagram-v2\n"@ + flat(d.states, |s: StateV| state_line(s)) + flat(
        d.transitions,
        |t: TransV| transition_text(t),
    )
}

fn state_line_exec(s: &StateNode) -> (r: String)
    ensures
        r@ == state_line((s.id@, s.label@, s.kind)),
{
    let mut out = String::new();
    if str_eq(s.id.as_str(), "[*]") {
        return out;
    }
    match s.kind {
        StateNodeKind::Normal => {
            if !str_eq(s.label.as_str(), s.id.as_str()) {
                out.append("    state \"");
                out.append(crate::class::escape_note_exec(s.label.as_str()).as_str());
                out.append("\" as ");
                out.append(s.id.as_str());
                out.append("\n");
            }
        },
        StateNodeKind::Choice => {
            out.append("    state ");
            out.append(s.id.as_str());
            out.append(" <<choice>>\n");
        },
        StateNodeKind::Fork => {
            out.append("    state ");
            out.append(s.id.as_str());
            out.append(" <<fork>>\n");
        },
        StateNodeKind::Join => {
            out.append("    state ");
            out.append(s.id.as_str());
            out.append(" <<join>>\n");
        },
        StateNodeKind::StartEnd => {},
    }
    out
}

impl StateDiagram {
    /// Mermaid text of the diagram.
    pub fn to_mermaid(&self) -> (r: String)
        ensures
            r@ == state_mermaid(sd_v(*self)),
    {
        let ghost dv = sd_v(*self);
        let mut out = String::from_str("stateDiagram-v2\n");
        let ghost base = out@;
        let ghost fs = |s: StateV| state_line(s);
        let mut i: usize = 0;
        while i < self.states.len()
            invariant
                i <= self.states@.len(),
                dv == sd_v(*self),
                fs == (|s: StateV| state_line(s)),
                out@ == base + flat(dv.states.take(i as int), fs),
            decreases self.states@.len() - i,
        {
            proof {
                lemma_flat_step(dv.states, fs, i as int);
            }
            out.append(state_line_exec(&self.states[i]).as_str());
            i = i + 1;
        }
        proof {
            lemma_flat_all(dv.states, fs);
        }
        let ghost base = out@;
        let ghost ft = |t: TransV| transition_text(t);
        let mut i: usize = 0;
        while i < self.transitions.len()
            invariant
                i <= self.transitions@.len(),
                dv == sd_v(*self),
                ft == (|t: TransV| transition_text(t)),
                out@ == base + flat(dv.transitions.take(i as int), ft),
            decreases self.transitions@.len() - i,
        {
            proof {
                lemma_flat_step(dv.transitions, ft, i as int);
            }
            let t = &self.transitions[i];
            proof {
                reveal_strlit("");
            }
            assert(dv.transitions[i as int] == (t.from@, t.to@, t.label@));
            assert(""@.len() == 0);
            assert(t.label@.len() == 0 ==> t.label@ =~= ""@);
            out.append("    ");
            out.append(t.from.as_str());
            out.append(" --> ");
            out.append(t.to.as_str());
            if str_eq(t.label.as_str(), "") {
                out.append("\n");
            } else {
                out.append(": ");
                out.append(t.label.as_str());
                out.append("\n");
            }
            i = i + 1;
        }
        proof {
            lemma_flat_all(dv.transitions, ft);
        }
        out
    }
}

} // verus!
