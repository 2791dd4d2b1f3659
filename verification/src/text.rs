//! Character-level text utilities: trimming, searching, splitting and
//! building strings, each stated over `Seq<char>`.

use vstd::prelude::*;

verus! {

/// Unicode `White_Space` property (what `char::is_whitespace` tests).
pub open spec fn is_ws(c: char) -> bool {
    let u = c as u32;
    ||| 0x09 <= u <= 0x0D
    ||| u == 0x20
    ||| u == 0x85
    ||| u == 0xA0
    ||| u == 0x1680
    ||| 0x2000 <= u <= 0x200A
    ||| u == 0x2028
    ||| u == 0x2029
    ||| u == 0x202F
    ||| u == 0x205F
    ||| u == 0x3000
}

pub fn is_whitespace(c: char) -> (b: bool)
    ensures
        b == is_ws(c),
{
    let u = c as u32;
    (0x09 <= u && u <= 0x0D) || u == 0x20 || u == 0x85 || u == 0xA0 || u == 0x1680 || (0x2000
        <= u && u <= 0x200A) || u == 0x2028 || u == 0x2029 || u == 0x202F || u == 0x205F || u
        == 0x3000
}

/// Drop leading whitespace.
pub open spec fn trim_start(s: Seq<char>) -> Seq<char>
    decreases s.len(),
{
    if s.len() > 0 && is_ws(s[0]) {
        trim_start(s.drop_first())
    } else {
        s
    }
}

/// Drop trailing whitespace.
pub open spec fn trim_end(s: Seq<char>) -> Seq<char>
    decreases s.len(),
{
    if s.len() > 0 && is_ws(s.last()) {
        trim_end(s.drop_last())
    } else {
        s
    }
}

/// Drop whitespace on both sides (`str::trim`).
pub open spec fn trim(s: Seq<char>) -> Seq<char> {
    trim_end(trim_start(s))
}

proof fn lemma_trim_start_step(s: Seq<char>, i: int)
    requires
        0 <= i < s.len(),
        is_ws(s[i]),
    ensures
        trim_start(s.subrange(i, s.len() as int)) == trim_start(s.subrange(i + 1, s.len() as int)),
{
    assert(s.subrange(i, s.len() as int).drop_first() =~= s.subrange(i + 1, s.len() as int));
}

proof fn lemma_trim_end_step(s: Seq<char>, j: int)
    requires
        0 < j <= s.len(),
        is_ws(s[j - 1]),
    ensures
        trim_end(s.subrange(0, j)) == trim_end(s.subrange(0, j - 1)),
{
    assert(s.subrange(0, j).drop_last() =~= s.subrange(0, j - 1));
}

/// Index of the first non-whitespace character (or the length).
pub fn trim_start_index(s: &[char]) -> (i: usize)
    ensures
        i <= s@.len(),
        trim_start(s@) == s@.subrange(i as int, s@.len() as int),
        i < s@.len() ==> !is_ws(s@[i as int]),
{
    let mut i: usize = 0;
    assert(s@.subrange(0, s@.len() as int) =~= s@);
    while i < s.len() && is_whitespace(s[i])
        invariant
            i <= s@.len(),
            trim_start(s@) == trim_start(s@.subrange(i as int, s@.len() as int)),
        decreases s@.len() - i,
    {
        proof {
            lemma_trim_start_step(s@, i as int);
        }
        i = i + 1;
    }
    proof {
        let t = s@.subrange(i as int, s@.len() as int);
        if t.len() > 0 {
            assert(t[0] == s@[i as int]);
        }
    }
    i
}

/// Index just past the last non-whitespace character at or after `lo`.
pub fn trim_end_index(s: &[char], lo: usize) -> (j: usize)
    requires
        lo <= s@.len(),
    ensures
        lo <= j <= s@.len(),
        trim_end(s@.subrange(lo as int, s@.len() as int)) == s@.subrange(lo as int, j as int),
{
    let mut j: usize = s.len();
    let ghost t = s@.subrange(lo as int, s@.len() as int);
    assert(t.subrange(0, t.len() as int) =~= t);
    while j > lo && is_whitespace(s[j - 1])
        invariant
            lo <= j <= s@.len(),
            t == s@.subrange(lo as int, s@.len() as int),
            trim_end(t) == trim_end(t.subrange(0, j - lo)),
        decreases j,
    {
        proof {
            lemma_trim_end_step(t, (j - lo) as int);
        }
        j = j - 1;
    }
    proof {
        let u = t.subrange(0, j - lo);
        assert(u =~= s@.subrange(lo as int, j as int));
        if u.len() > 0 {
            assert(u.last() == s@[j - 1]);
        }
    }
    j
}

/// `str::trim` on a character slice.
pub fn trim_slice(s: &[char]) -> (r: &[char])
    ensures
        r@ == trim(s@),
{
    let i = trim_start_index(s);
    let j = trim_end_index(s, i);
    &s[i..j]
}


/// The characters of a string slice, in order.
pub fn chars_of(s: &str) -> (v: Vec<char>)
    ensures
        v@ == s@,
{
    let mut v: Vec<char> = Vec::new();
    for c in it: s.chars()
        invariant
            v@ == it.seq().take(it.index() as int),
            it.seq() == s@,
            it.index() == it.seq().len() ==> v@ == s@,
    {
        v.push(c);
        proof {
            assert(it.seq().take(it.index() + 1) =~= v@);
        }
    }
    v
}

/// Append one character to a `String` (`String::push`).
#[verifier::external_body]
pub fn push_char(s: &mut String, c: char)
    ensures
        final(s)@ == old(s)@.push(c),
{
    s.push(c);
}

/// Append a character slice to a `String`.
pub fn push_chars(out: &mut String, s: &[char])
    ensures
        final(out)@ == old(out)@ + s@,
{
    let mut i: usize = 0;
    while i < s.len()
        invariant
            i <= s@.len(),
            out@ == old(out)@ + s@.subrange(0, i as int),
        decreases s@.len() - i,
    {
        push_char(out, s[i]);
        i = i + 1;
        assert(out@ =~= old(out)@ + s@.subrange(0, i as int));
    }
    assert(s@.subrange(0, s@.len() as int) =~= s@);
}

/// Append a string slice to a `String`.
pub fn push_str(out: &mut String, s: &str)
    ensures
        final(out)@ == old(out)@ + s@,
{
    out.append(s);
}

/// A new `String` holding the given characters.
pub fn string_of(s: &[char]) -> (r: String)
    ensures
        r@ == s@,
{
    let mut r = String::new();
    push_chars(&mut r, s);
    r
}


/// `p` occurs in `s` starting at index `i`.
pub open spec fn occurs_at(s: Seq<char>, p: Seq<char>, i: int) -> bool {
    0 <= i && i + p.len() <= s.len() && s.subrange(i, i + p.len()) == p
}

/// First occurrence of `p` in `s` at or after `i`.
pub open spec fn find_from(s: Seq<char>, p: Seq<char>, i: int) -> Option<int>
    decreases s.len() + 1 - i,
{
    if i < 0 || i + p.len() > s.len() {
        None
    } else if occurs_at(s, p, i) {
        Some(i)
    } else {
        find_from(s, p, i + 1)
    }
}

/// First occurrence of `p` in `s` (`str::find`).
pub open spec fn find(s: Seq<char>, p: Seq<char>) -> Option<int> {
    find_from(s, p, 0)
}

/// What `find` returns, stated without recursion.
pub proof fn lemma_find_from(s: Seq<char>, p: Seq<char>, i: int)
    requires
        0 <= i,
    ensures
        find_from(s, p, i) matches Some(k) ==> i <= k && occurs_at(s, p, k) && forall|j: int|
            i <= j < k ==> !occurs_at(s, p, j),
        find_from(s, p, i) is None ==> forall|j: int| i <= j ==> !occurs_at(s, p, j),
    decreases s.len() + 1 - i,
{
    if i + p.len() > s.len() {
    } else if occurs_at(s, p, i) {
    } else {
        lemma_find_from(s, p, i + 1);
    }
}

/// `p` occurs in `s` at index `i` (executable test).
pub fn matches_at(s: &[char], p: &[char], i: usize) -> (b: bool)
    ensures
        b == occurs_at(s@, p@, i as int),
{
    if i > s.len() || p.len() > s.len() - i {
        return false;
    }
    let mut k: usize = 0;
    let sl = s.len();
    while k < p.len()
        invariant
            sl == s@.len(),
            i + p@.len() <= s@.len(),
            i <= s@.len(),
            k <= p@.len(),
            forall|t: int| 0 <= t < k ==> s@[i + t] == p@[t],
        decreases p@.len() - k,
    {
        if s[i + k] != p[k] {
            assert(s@.subrange(i as int, i + p@.len())[k as int] != p@[k as int]);
            return false;
        }
        k = k + 1;
    }
    assert(s@.subrange(i as int, i + p@.len()) =~= p@);
    true
}

/// First index at or after `from` where `p` occurs.
pub fn find_slice_from(s: &[char], p: &[char], from: usize) -> (r: Option<usize>)
    ensures
        r matches Some(k) ==> find_from(s@, p@, from as int) == Some(k as int),
        r is None ==> find_from(s@, p@, from as int) is None,
{
    if from > s.len() || p.len() > s.len() - from {
        return None;
    }
    let mut i: usize = from;
    let last = s.len() - p.len();
    loop
        invariant
            from <= i <= last,
            last + p@.len() == s@.len(),
            find_from(s@, p@, from as int) == find_from(s@, p@, i as int),
        decreases last - i,
    {
        if matches_at(s, p, i) {
            return Some(i);
        }
        if i == last {
            assert(find_from(s@, p@, i + 1) is None);
            return None;
        }
        i = i + 1;
    }
}

/// First index where `p` occurs (`str::find`).
pub fn find_slice(s: &[char], p: &[char]) -> (r: Option<usize>)
    ensures
        r matches Some(k) ==> find(s@, p@) == Some(k as int),
        r is None ==> find(s@, p@) is None,
{
    find_slice_from(s, p, 0)
}

/// First index of character `c` at or after `i`.
pub open spec fn find_char_from(s: Seq<char>, c: char, i: int) -> Option<int>
    decreases s.len() - i,
{
    if i < 0 || i >= s.len() {
        None
    } else if s[i] == c {
        Some(i)
    } else {
        find_char_from(s, c, i + 1)
    }
}

/// First index of character `c` (`str::find(char)`).
pub open spec fn find_char(s: Seq<char>, c: char) -> Option<int> {
    find_char_from(s, c, 0)
}

pub proof fn lemma_find_char_from(s: Seq<char>, c: char, i: int)
    requires
        0 <= i,
    ensures
        find_char_from(s, c, i) matches Some(k) ==> i <= k < s.len() && s[k] == c && forall|j: int|
            i <= j < k ==> s[j] != c,
        find_char_from(s, c, i) is None ==> forall|j: int| i <= j < s.len() ==> s[j] != c,
    decreases s.len() - i,
{
    if i >= s.len() {
    } else if s[i] == c {
    } else {
        lemma_find_char_from(s, c, i + 1);
    }
}

pub fn find_char_slice_from(s: &[char], c: char, from: usize) -> (r: Option<usize>)
    ensures
        r matches Some(k) ==> find_char_from(s@, c, from as int) == Some(k as int),
        r is None ==> find_char_from(s@, c, from as int) is None,
{
    let mut i = from;
    while i < s.len()
        invariant
            from <= i,
            find_char_from(s@, c, from as int) == find_char_from(s@, c, i as int),
        decreases s@.len() - i,
    {
        if s[i] == c {
            return Some(i);
        }
        i = i + 1;
    }
    None
}

pub fn find_char_slice(s: &[char], c: char) -> (r: Option<usize>)
    ensures
        r matches Some(k) ==> find_char(s@, c) == Some(k as int),
        r is None ==> find_char(s@, c) is None,
{
    find_char_slice_from(s, c, 0)
}

/// Last index of character `c` before `j` (exclusive).
pub open spec fn rfind_char_before(s: Seq<char>, c: char, j: int) -> Option<int>
    decreases j,
{
    if j <= 0 || j > s.len() {
        None
    } else if s[j - 1] == c {
        Some(j - 1)
    } else {
        rfind_char_before(s, c, j - 1)
    }
}

/// Last index of character `c` (`str::rfind(char)`).
pub open spec fn rfind_char(s: Seq<char>, c: char) -> Option<int> {
    rfind_char_before(s, c, s.len() as int)
}

pub fn rfind_char_slice(s: &[char], c: char) -> (r: Option<usize>)
    ensures
        r matches Some(k) ==> rfind_char(s@, c) == Some(k as int) && k < s@.len(),
        r is None ==> rfind_char(s@, c) is None,
{
    let mut j = s.len();
    while j > 0
        invariant
            j <= s@.len(),
            rfind_char(s@, c) == rfind_char_before(s@, c, j as int),
        decreases j,
    {
        if s[j - 1] == c {
            return Some(j - 1);
        }
        j = j - 1;
    }
    None
}

/// `p` is a prefix of `s` (`str::starts_with`).
pub fn starts_with(s: &[char], p: &[char]) -> (b: bool)
    ensures
        b == p@.is_prefix_of(s@),
{
    let b = matches_at(s, p, 0);
    proof {
        if p@.len() <= s@.len() {
            assert(p@.is_prefix_of(s@) == (s@.subrange(0, p@.len() as int) =~= p@));
        }
    }
    b
}

/// `p` is a suffix of `s` (`str::ends_with`).
pub fn ends_with(s: &[char], p: &[char]) -> (b: bool)
    ensures
        b == p@.is_suffix_of(s@),
{
    if p.len() > s.len() {
        return false;
    }
    let b = matches_at(s, p, s.len() - p.len());
    proof {
        assert(p@.is_suffix_of(s@) == (s@.subrange(s@.len() - p@.len(), s@.len() as int)
            =~= p@));
    }
    b
}

/// Character `c` appears in `s`.
pub fn contains_char(s: &[char], c: char) -> (b: bool)
    ensures
        b == s@.contains(c),
{
    let r = find_char_slice(s, c);
    proof {
        lemma_find_char_from(s@, c, 0);
        if let Some(k) = r {
            assert(s@[k as int] == c);
        }
    }
    r.is_some()
}

/// Same characters.
pub fn eq_slice(a: &[char], b: &[char]) -> (r: bool)
    ensures
        r == (a@ == b@),
{
    if a.len() != b.len() {
        return false;
    }
    let r = matches_at(a, b, 0);
    proof {
        if r {
            assert(a@.subrange(0, b@.len() as int) =~= a@);
        } else {
            assert(a@.subrange(0, b@.len() as int) =~= a@);
        }
    }
    r
}


/// Views of a vector of character vectors.
pub open spec fn seqs(v: Seq<Vec<char>>) -> Seq<Seq<char>> {
    Seq::new(v.len(), |i: int| v[i]@)
}

pub proof fn lemma_seqs_push(v: Seq<Vec<char>>, x: Vec<char>)
    ensures
        seqs(v.push(x)) == seqs(v).push(x@),
{
    assert(seqs(v.push(x)) =~= seqs(v).push(x@));
}

/// Searching a suffix of `s` is searching `s` from the suffix start.
pub proof fn lemma_find_char_shift(s: Seq<char>, c: char, a: int, i: int)
    requires
        0 <= a <= i,
        a <= s.len(),
    ensures
        find_char_from(s.subrange(a, s.len() as int), c, i - a) == (match find_char_from(s, c, i) {
            Some(k) => Some(k - a),
            None => None,
        }),
    decreases s.len() - i,
{
    if i >= s.len() {
    } else {
        lemma_find_char_shift(s, c, a, i + 1);
    }
}

/// Pieces of `s` between occurrences of `c` (`str::split(char)`).
pub open spec fn split_char(s: Seq<char>, c: char) -> Seq<Seq<char>>
    decreases s.len(),
{
    match find_char(s, c) {
        Some(i) => {
            if 0 <= i < s.len() {
                seq![s.subrange(0, i)] + split_char(s.subrange(i + 1, s.len() as int), c)
            } else {
                seq![s]
            }
        },
        None => seq![s],
    }
}

/// Splitting gives at least one piece.
pub proof fn lemma_split_char_nonempty(s: Seq<char>, c: char)
    ensures
        split_char(s, c).len() > 0,
{
}

/// `str::split(char)` on a character slice.
pub fn split_char_slice(s: &[char], c: char) -> (r: Vec<Vec<char>>)
    ensures
        seqs(r@) == split_char(s@, c),
{
    let mut r: Vec<Vec<char>> = Vec::new();
    let mut start: usize = 0;
    let n = s.len();
    assert(s@.subrange(0, s@.len() as int) =~= s@);
    loop
        invariant
            n == s@.len(),
            start <= s@.len(),
            seqs(r@) + split_char(s@.subrange(start as int, s@.len() as int), c) == split_char(
                s@,
                c,
            ),
        decreases s@.len() - start,
    {
        let ghost t = s@.subrange(start as int, s@.len() as int);
        proof {
            lemma_find_char_shift(s@, c, start as int, start as int);
            lemma_find_char_from(s@, c, start as int);
        }
        match find_char_slice_from(s, c, start) {
            Some(k) => {
                let piece = slice_to_vec(&s[start..k]);
                proof {
                    lemma_seqs_push(r@, piece);
                    assert(t.subrange(0, k - start) =~= piece@);
                    assert(t.subrange(k - start + 1, t.len() as int) =~= s@.subrange(
                        k + 1,
                        s@.len() as int,
                    ));
                    assert(seqs(r@.push(piece)) + split_char(
                        s@.subrange(k + 1, s@.len() as int),
                        c,
                    ) =~= seqs(r@) + split_char(t, c));
                }
                r.push(piece);
                start = k + 1;
            },
            None => {
                let piece = slice_to_vec(&s[start..s.len()]);
                proof {
                    lemma_seqs_push(r@, piece);
                    assert(seqs(r@.push(piece)) =~= seqs(r@) + split_char(t, c));
                }
                r.push(piece);
                return r;
            },
        }
    }
}

/// Copy of a character slice.
pub fn slice_to_vec(s: &[char]) -> (v: Vec<char>)
    ensures
        v@ == s@,
{
    let mut v: Vec<char> = Vec::new();
    let mut i: usize = 0;
    while i < s.len()
        invariant
            i <= s@.len(),
            v@ == s@.subrange(0, i as int),
        decreases s@.len() - i,
    {
        v.push(s[i]);
        i = i + 1;
        assert(v@ =~= s@.subrange(0, i as int));
    }
    assert(s@.subrange(0, s@.len() as int) =~= s@);
    v
}

/// Drop one trailing carriage return.
pub open spec fn strip_cr(t: Seq<char>) -> Seq<char> {
    if t.len() > 0 && t.last() == '\r' {
        t.drop_last()
    } else {
        t
    }
}

/// Lines of `s` (`str::lines`): split at `\n`, a `\r` before it dropped,
/// no final empty line.
pub open spec fn lines(s: Seq<char>) -> Seq<Seq<char>>
    decreases s.len(),
{
    if s.len() == 0 {
        seq![]
    } else {
        match find_char(s, '\n') {
            Some(i) => {
                if 0 <= i < s.len() {
                    seq![strip_cr(s.subrange(0, i))] + lines(s.subrange(i + 1, s.len() as int))
                } else {
                    seq![s]
                }
            },
            None => seq![s],
        }
    }
}

/// `str::lines` on a character slice.
pub fn lines_of(s: &[char]) -> (r: Vec<Vec<char>>)
    ensures
        seqs(r@) == lines(s@),
{
    let mut r: Vec<Vec<char>> = Vec::new();
    let mut start: usize = 0;
    assert(s@.subrange(0, s@.len() as int) =~= s@);
    while start < s.len()
        invariant
            start <= s@.len(),
            seqs(r@) + lines(s@.subrange(start as int, s@.len() as int)) == lines(s@),
        decreases s@.len() - start,
    {
        let ghost t = s@.subrange(start as int, s@.len() as int);
        proof {
            lemma_find_char_shift(s@, '\n', start as int, start as int);
            lemma_find_char_from(s@, '\n', start as int);
        }
        match find_char_slice_from(s, '\n', start) {
            Some(k) => {
                assert(k < s@.len());
                let mut end = k;
                if end > start && s[end - 1] == '\r' {
                    end = end - 1;
                }
                let piece = slice_to_vec(&s[start..end]);
                proof {
                    lemma_seqs_push(r@, piece);
                    assert(strip_cr(t.subrange(0, k - start)) =~= piece@);
                    assert(t.subrange(k - start + 1, t.len() as int) =~= s@.subrange(
                        k + 1,
                        s@.len() as int,
                    ));
                    assert(seqs(r@.push(piece)) + lines(s@.subrange(k + 1, s@.len() as int))
                        =~= seqs(r@) + lines(t));
                }
                r.push(piece);
                start = k + 1;
            },
            None => {
                let piece = slice_to_vec(&s[start..s.len()]);
                proof {
                    lemma_seqs_push(r@, piece);
                    assert(seqs(r@.push(piece)) =~= seqs(r@) + lines(t));
                    assert(s@.subrange(s@.len() as int, s@.len() as int) =~= Seq::<char>::empty());
                }
                r.push(piece);
                start = s.len();
            },
        }
    }
    proof {
        assert(s@.subrange(start as int, s@.len() as int) =~= Seq::<char>::empty());
        assert(seqs(r@) + Seq::<Seq<char>>::empty() =~= seqs(r@));
    }
    r
}


/// The decimal digit character for `d` in `0..10`.
pub open spec fn digit_char(d: int) -> char {
    if d == 0 {
        '0'
    } else if d == 1 {
        '1'
    } else if d == 2 {
        '2'
    } else if d == 3 {
        '3'
    } else if d == 4 {
        '4'
    } else if d == 5 {
        '5'
    } else if d == 6 {
        '6'
    } else if d == 7 {
        '7'
    } else if d == 8 {
        '8'
    } else {
        '9'
    }
}

/// Decimal notation of `n` (what `{}` prints for an unsigned integer).
pub open spec fn decimal(n: nat) -> Seq<char>
    decreases n,
{
    if n < 10 {
        seq![digit_char(n as int)]
    } else {
        decimal(n / 10).push(digit_char((n % 10) as int))
    }
}

fn digit(d: usize) -> (c: char)
    requires
        d < 10,
    ensures
        c == digit_char(d as int),
{
    if d == 0 {
        '0'
    } else if d == 1 {
        '1'
    } else if d == 2 {
        '2'
    } else if d == 3 {
        '3'
    } else if d == 4 {
        '4'
    } else if d == 5 {
        '5'
    } else if d == 6 {
        '6'
    } else if d == 7 {
        '7'
    } else if d == 8 {
        '8'
    } else {
        '9'
    }
}

/// Append the decimal notation of `n`.
pub fn push_decimal(out: &mut String, n: usize)
    ensures
        final(out)@ == old(out)@ + decimal(n as nat),
    decreases n,
{
    if n >= 10 {
        push_decimal(out, n / 10);
    }
    push_char(out, digit(n % 10));
    proof {
        assert(final(out)@ =~= old(out)@ + decimal(n as nat)) by {
            if n >= 10 {
                assert(decimal(n as nat) == decimal((n / 10) as nat).push(digit_char((n % 10) as int)));
            }
        }
    }
}

/// Append the decimal notation of a 64-bit `n`.
pub fn push_decimal_u64(out: &mut String, n: u64)
    ensures
        final(out)@ == old(out)@ + decimal(n as nat),
    decreases n,
{
    if n >= 10 {
        push_decimal_u64(out, n / 10);
    }
    let d = (n % 10) as usize;
    push_char(out, digit(d));
    proof {
        assert(final(out)@ =~= old(out)@ + decimal(n as nat)) by {
            if n >= 10 {
                assert(decimal(n as nat) == decimal((n / 10) as nat).push(digit_char((n % 10) as int)));
            }
        }
    }
}

/// Append the decimal notation of a 128-bit `n`.
pub fn push_decimal_u128(out: &mut String, n: u128)
    ensures
        final(out)@ == old(out)@ + decimal(n as nat),
    decreases n,
{
    if n >= 10 {
        push_decimal_u128(out, n / 10);
    }
    let d = (n % 10) as usize;
    push_char(out, digit(d));
    proof {
        assert(final(out)@ =~= old(out)@ + decimal(n as nat)) by {
            if n >= 10 {
                assert(decimal(n as nat) == decimal((n / 10) as nat).push(digit_char((n % 10) as int)));
            }
        }
    }
}

/// ASCII letter or digit.
pub open spec fn is_ascii_alnum(c: char) -> bool {
    ('a' <= c <= 'z') || ('A' <= c <= 'Z') || ('0' <= c <= '9')
}

/// What `char::is_alphanumeric` answers for `c` (Unicode Alphabetic or Numeric).
pub uninterp spec fn alphanumeric(c: char) -> bool;

/// `char::is_alphanumeric`: the answer is named `alphanumeric(c)`; on ASCII
/// input it is true exactly for letters and digits.  What it answers for other
/// characters (the Unicode tables) is left to the name.
#[verifier::external_body]
pub fn is_alphanumeric(c: char) -> (b: bool)
    ensures
        b == alphanumeric(c),
        (c as u32) < 128 ==> (b <==> is_ascii_alnum(c)),
{
    c.is_alphanumeric()
}

/// What `str::to_lowercase` returns for `s`.
pub uninterp spec fn lowercase(s: Seq<char>) -> Seq<char>;

/// What `str::to_uppercase` returns for `s`.
pub uninterp spec fn uppercase(s: Seq<char>) -> Seq<char>;

/// Lower-case ASCII letters only.
pub open spec fn lower_word(w: Seq<char>) -> bool {
    forall|i: int| 0 <= i < w.len() ==> 'a' <= #[trigger] w[i] <= 'z'
}

/// What the standard lower-casing documents for ASCII text: a word of
/// lower-case letters comes back unchanged.
pub open spec fn lowercase_keeps_lower() -> bool {
    forall|w: Seq<char>| lower_word(w) ==> #[trigger] lowercase(w) == w
}

/// All characters are ASCII.
pub open spec fn all_ascii(s: Seq<char>) -> bool {
    forall|i: int| 0 <= i < s.len() ==> (s[i] as u32) < 128
}

/// ASCII lower-casing of one character.
pub open spec fn ascii_lower(c: char) -> char {
    if 'A' <= c <= 'Z' {
        ((c as u32) + 32) as char
    } else {
        c
    }
}

/// ASCII upper-casing of one character.
pub open spec fn ascii_upper(c: char) -> char {
    if 'a' <= c <= 'z' {
        ((c as u32) - 32) as char
    } else {
        c
    }
}

/// `str::to_lowercase`: the result is named `lowercase(s@)`; on ASCII input
/// it is the ASCII lower-casing of each character.  Unicode case mapping of
/// other characters is left to the name.
#[verifier::external_body]
pub fn to_lowercase(s: &str) -> (r: String)
    ensures
        r@ == lowercase(s@),
        all_ascii(s@) ==> r@ == s@.map_values(|c: char| ascii_lower(c)),
{
    s.to_lowercase()
}

/// `str::to_uppercase`: the result is named `uppercase(s@)`; on ASCII input
/// it is the ASCII upper-casing of each character.
#[verifier::external_body]
pub fn to_uppercase(s: &str) -> (r: String)
    ensures
        r@ == uppercase(s@),
        all_ascii(s@) ==> r@ == s@.map_values(|c: char| ascii_upper(c)),
{
    s.to_uppercase()
}

/// A `String` with the characters of a `&str`.
pub fn string_from(s: &str) -> (r: String)
    ensures
        r@ == s@,
{
    String::from_str(s)
}

/// Concatenation of two strings.
pub fn concat2(a: &str, b: &str) -> (r: String)
    ensures
        r@ == a@ + b@,
{
    let mut r = String::from_str(a);
    r.append(b);
    r
}

/// Concatenation of three strings.
pub fn concat3(a: &str, b: &str, c: &str) -> (r: String)
    ensures
        r@ == a@ + b@ + c@,
{
    let mut r = String::from_str(a);
    r.append(b);
    r.append(c);
    r
}


/// Concatenation of `f` over the items of `s`, in order.
pub open spec fn flat<T>(s: Seq<T>, f: spec_fn(T) -> Seq<char>) -> Seq<char>
    decreases s.len(),
{
    if s.len() == 0 {
        Seq::empty()
    } else {
        flat(s.drop_last(), f) + f(s.last())
    }
}

/// One more item appends its text.
pub proof fn lemma_flat_step<T>(s: Seq<T>, f: spec_fn(T) -> Seq<char>, i: int)
    requires
        0 <= i < s.len(),
    ensures
        flat(s.take(i + 1), f) == flat(s.take(i), f) + f(s[i]),
{
    assert(s.take(i + 1).drop_last() =~= s.take(i));
}

pub proof fn lemma_flat_all<T>(s: Seq<T>, f: spec_fn(T) -> Seq<char>)
    ensures
        flat(s.take(s.len() as int), f) == flat(s, f),
        flat(s.take(0), f) == Seq::<char>::empty(),
{
    assert(s.take(s.len() as int) =~= s);
    assert(s.take(0).len() == 0);
}

/// Items joined with a separator (`[..].join(sep)`).
pub open spec fn join(s: Seq<Seq<char>>, sep: Seq<char>) -> Seq<char>
    decreases s.len(),
{
    if s.len() == 0 {
        Seq::empty()
    } else if s.len() == 1 {
        s[0]
    } else {
        join(s.drop_last(), sep) + sep + s.last()
    }
}

pub proof fn lemma_join_step(s: Seq<Seq<char>>, sep: Seq<char>, i: int)
    requires
        0 < i < s.len(),
    ensures
        join(s.take(i + 1), sep) == join(s.take(i), sep) + sep + s[i],
{
    assert(s.take(i + 1).drop_last() =~= s.take(i));
}

/// Views of a sequence of strings.
pub open spec fn views(v: Seq<String>) -> Seq<Seq<char>> {
    Seq::new(v.len(), |i: int| v[i]@)
}

/// Join strings with a separator.
pub fn join_strings(v: &Vec<String>, sep: &str) -> (r: String)
    ensures
        r@ == join(views(v@), sep@),
{
    let mut r = String::new();
    let ghost w = views(v@);
    let mut i: usize = 0;
    while i < v.len()
        invariant
            i <= v@.len(),
            w == views(v@),
            r@ == join(w.take(i as int), sep@),
        decreases v@.len() - i,
    {
        if i > 0 {
            r.append(sep);
            proof {
                lemma_join_step(w, sep@, i as int);
            }
        } else {
            assert(w.take(1) =~= seq![w[0]]);
            assert(r@ =~= Seq::<char>::empty());
        }
        r.append(v[i].as_str());
        i = i + 1;
    }
    assert(w.take(v@.len() as int) =~= w);
    r
}

/// Two strings hold the same characters.
pub fn str_eq(a: &str, b: &str) -> (r: bool)
    ensures
        r == (a@ == b@),
{
    let x = chars_of(a);
    let y = chars_of(b);
    eq_slice(x.as_slice(), y.as_slice())
}


/// Index of the first item at or after `i` satisfying `p`.
pub open spec fn first_from<T>(s: Seq<T>, p: spec_fn(T) -> bool, i: int) -> Option<int>
    decreases s.len() - i,
{
    if i < 0 || i >= s.len() {
        None
    } else if p(s[i]) {
        Some(i)
    } else {
        first_from(s, p, i + 1)
    }
}

/// Index of the first item satisfying `p`.
pub open spec fn first<T>(s: Seq<T>, p: spec_fn(T) -> bool) -> Option<int> {
    first_from(s, p, 0)
}

pub proof fn lemma_first_from<T>(s: Seq<T>, p: spec_fn(T) -> bool, i: int)
    requires
        0 <= i,
    ensures
        first_from(s, p, i) matches Some(k) ==> i <= k < s.len() && p(s[k]) && forall|j: int|
            i <= j < k ==> !p(#[trigger] s[j]),
        first_from(s, p, i) is None ==> forall|j: int| i <= j < s.len() ==> !p(#[trigger] s[j]),
    decreases s.len() - i,
{
    if i >= s.len() {
    } else if p(s[i]) {
    } else {
        lemma_first_from(s, p, i + 1);
    }
}

/// Filtering a longer prefix adds the next item when it passes.
pub proof fn lemma_filter_step<T>(s: Seq<T>, p: spec_fn(T) -> bool, i: int)
    requires
        0 <= i < s.len(),
    ensures
        s.take(i + 1).filter(p) == (if p(s[i]) {
            s.take(i).filter(p).push(s[i])
        } else {
            s.take(i).filter(p)
        }),
{
    reveal_with_fuel(Seq::<_>::filter, 1);
    assert(s.take(i + 1).drop_last() =~= s.take(i));
}

pub proof fn lemma_filter_empty<T>(s: Seq<T>, p: spec_fn(T) -> bool)
    ensures
        s.take(0).filter(p) == Seq::<T>::empty(),
{
    reveal_with_fuel(Seq::<_>::filter, 1);
    assert(s.take(0) =~= Seq::<T>::empty());
}

/// Copy of an optional string.
pub fn clone_opt(o: &Option<String>) -> (r: Option<String>)
    ensures
        r == *o,
{
    match o {
        Some(s) => Some(s.clone()),
        None => None,
    }
}

/// Copy of a vector of strings.
pub fn clone_strings(v: &Vec<String>) -> (r: Vec<String>)
    ensures
        r@ == v@,
{
    let mut r: Vec<String> = Vec::new();
    let mut i: usize = 0;
    while i < v.len()
        invariant
            i <= v@.len(),
            r@ == v@.take(i as int),
        decreases v@.len() - i,
    {
        r.push(v[i].clone());
        i = i + 1;
        assert(r@ =~= v@.take(i as int));
    }
    assert(v@.take(v@.len() as int) =~= v@);
    r
}


/// Trimmed lines of `ls` that pass `keep`, in order.
pub open spec fn kept_lines(ls: Seq<Seq<char>>, keep: spec_fn(Seq<char>) -> bool) -> Seq<Seq<char>>
    decreases ls.len(),
{
    if ls.len() == 0 {
        Seq::empty()
    } else {
        let prev = kept_lines(ls.drop_last(), keep);
        let t = trim(ls.last());
        if keep(t) {
            prev.push(t)
        } else {
            prev
        }
    }
}

/// Not a `%%` comment and not empty.
pub open spec fn keep_content(l: Seq<char>) -> bool {
    l.len() > 0 && !("%%"@.is_prefix_of(l))
}

/// Not a `%%` comment, not a `---` front-matter fence and not empty.
pub open spec fn keep_flow(l: Seq<char>) -> bool {
    l.len() > 0 && !("%%"@.is_prefix_of(l)) && !("---"@.is_prefix_of(l))
}

/// Trimmed non-empty, non-comment lines of a source text (`front_matter` also
/// drops `---` lines).
pub fn content_lines(src: &str, front_matter: bool) -> (r: Vec<Vec<char>>)
    ensures
        front_matter ==> seqs(r@) == kept_lines(lines(src@), |l: Seq<char>| keep_flow(l)),
        !front_matter ==> seqs(r@) == kept_lines(lines(src@), |l: Seq<char>| keep_content(l)),
{
    let cs = chars_of(src);
    let ls = lines_of(cs.as_slice());
    let ghost all = seqs(ls@);
    let ghost keep = if front_matter {
        |l: Seq<char>| keep_flow(l)
    } else {
        |l: Seq<char>| keep_content(l)
    };
    let pct = chars_of("%%");
    let dash = chars_of("---");
    let mut r: Vec<Vec<char>> = Vec::new();
    let mut i: usize = 0;
    assert(all.take(0) =~= Seq::<Seq<char>>::empty());
    while i < ls.len()
        invariant
            i <= ls@.len(),
            all == seqs(ls@),
            all == lines(src@),
            pct@ == "%%"@,
            dash@ == "---"@,
            keep == (if front_matter {
                |l: Seq<char>| keep_flow(l)
            } else {
                |l: Seq<char>| keep_content(l)
            }),
            seqs(r@) == kept_lines(all.take(i as int), keep),
        decreases ls@.len() - i,
    {
        let t = trim_slice(ls[i].as_slice());
        let mut ok = t.len() > 0 && !starts_with(t, pct.as_slice());
        if front_matter && ok {
            ok = !starts_with(t, dash.as_slice());
        }
        proof {
            assert(all.take(i + 1).drop_last() =~= all.take(i as int));
            assert(all[i as int] == ls@[i as int]@);
        }
        if ok {
            let v = slice_to_vec(t);
            proof {
                lemma_seqs_push(r@, v);
            }
            r.push(v);
        }
        i = i + 1;
    }
    assert(all.take(ls@.len() as int) =~= all);
    r
}


proof fn lemma_trim_start_no_ws(s: Seq<char>)
    ensures
        trim_start(s).len() == 0 || !is_ws(trim_start(s)[0]),
    decreases s.len(),
{
    if s.len() > 0 && is_ws(s[0]) {
        lemma_trim_start_no_ws(s.drop_first());
    }
}

proof fn lemma_trim_end_keeps_start(s: Seq<char>)
    ensures
        trim_end(s).len() == 0 || (trim_end(s)[0] == s[0] && !is_ws(trim_end(s).last())),
    decreases s.len(),
{
    if s.len() > 0 && is_ws(s.last()) {
        lemma_trim_end_keeps_start(s.drop_last());
    }
}

pub proof fn lemma_trim_fixed(s: Seq<char>)
    requires
        s.len() == 0 || (!is_ws(s[0]) && !is_ws(s.last())),
    ensures
        trim(s) == s,
{
}

/// Trimming twice is trimming once.
pub proof fn lemma_trim_idempotent(s: Seq<char>)
    ensures
        trim(trim(s)) == trim(s),
{
    lemma_trim_start_no_ws(s);
    lemma_trim_end_keeps_start(trim_start(s));
    lemma_trim_fixed(trim(s));
}


/// Trimmed lines passing `keep`, each with its 1-based line number.
pub open spec fn kept_numbered(ls: Seq<Seq<char>>, keep: spec_fn(Seq<char>) -> bool) -> Seq<
    (int, Seq<char>),
>
    decreases ls.len(),
{
    if ls.len() == 0 {
        Seq::empty()
    } else {
        let prev = kept_numbered(ls.drop_last(), keep);
        let t = trim(ls.last());
        if keep(t) {
            prev.push((ls.len() as int, t))
        } else {
            prev
        }
    }
}

/// Numbered lines as values.
pub open spec fn numbered(v: Seq<(usize, Vec<char>)>) -> Seq<(int, Seq<char>)> {
    Seq::new(v.len(), |i: int| (v[i].0 as int, v[i].1@))
}

/// Trimmed non-empty lines that are not `%%` comments, with line numbers.
pub fn numbered_lines(src: &str) -> (r: Vec<(usize, Vec<char>)>)
    ensures
        numbered(r@) == kept_numbered(lines(src@), |l: Seq<char>| keep_content(l)),
{
    let cs = chars_of(src);
    let ls = lines_of(cs.as_slice());
    let ghost all = seqs(ls@);
    let ghost keep = |l: Seq<char>| keep_content(l);
    let pct = chars_of("%%");
    let mut r: Vec<(usize, Vec<char>)> = Vec::new();
    let mut i: usize = 0;
    assert(all.take(0) =~= Seq::<Seq<char>>::empty());
    while i < ls.len()
        invariant
            i <= ls@.len(),
            all == seqs(ls@),
            all == lines(src@),
            pct@ == "%%"@,
            keep == (|l: Seq<char>| keep_content(l)),
            numbered(r@) == kept_numbered(all.take(i as int), keep),
        decreases ls@.len() - i,
    {
        let t = trim_slice(ls[i].as_slice());
        let ok = t.len() > 0 && !starts_with(t, pct.as_slice());
        proof {
            assert(all.take(i + 1).drop_last() =~= all.take(i as int));
            assert(all[i as int] == ls@[i as int]@);
        }
        if ok {
            let v = slice_to_vec(t);
            let ghost before = r@;
            r.push((i + 1, v));
            assert(numbered(r@) =~= numbered(before).push(((i + 1) as int, v@)));
        }
        i = i + 1;
    }
    assert(all.take(ls@.len() as int) =~= all);
    r
}

/// The part after a prefix, when `s` starts with it.
pub open spec fn strip_prefix(s: Seq<char>, p: Seq<char>) -> Option<Seq<char>> {
    if p.is_prefix_of(s) {
        Some(s.subrange(p.len() as int, s.len() as int))
    } else {
        None
    }
}

pub fn strip_prefix_exec(s: &[char], p: &str) -> (r: Option<Vec<char>>)
    ensures
        match strip_prefix(s@, p@) {
            Some(t) => r matches Some(v) && v@ == t,
            None => r is None,
        },
{
    let pc = chars_of(p);
    if starts_with(s, pc.as_slice()) {
        Some(slice_to_vec(&s[pc.len()..s.len()]))
    } else {
        None
    }
}

/// Split at the first occurrence of `p` (`str::split_once`).
pub open spec fn split_once(s: Seq<char>, p: Seq<char>) -> Option<(Seq<char>, Seq<char>)> {
    match find(s, p) {
        Some(i) => Some((s.subrange(0, i), s.subrange(i + p.len(), s.len() as int))),
        None => None,
    }
}

pub fn split_once_exec(s: &[char], p: &str) -> (r: Option<(Vec<char>, Vec<char>)>)
    ensures
        match split_once(s@, p@) {
            Some((a, b)) => r matches Some((x, y)) && x@ == a && y@ == b,
            None => r is None,
        },
{
    let pc = chars_of(p);
    match find_slice(s, pc.as_slice()) {
        Some(i) => {
            proof {
                lemma_find_from(s@, p@, 0);
            }
            let n = s.len();
            assert(i + pc@.len() <= n);
            Some((slice_to_vec(&s[0..i]), slice_to_vec(&s[i + pc.len()..n])))
        },
        None => None,
    }
}

/// Trimmed pieces with empty ones dropped.
pub open spec fn nonempty_trimmed(ps: Seq<Seq<char>>) -> Seq<Seq<char>>
    decreases ps.len(),
{
    if ps.len() == 0 {
        Seq::empty()
    } else {
        let prev = nonempty_trimmed(ps.drop_last());
        let t = trim(ps.last());
        if t.len() > 0 {
            prev.push(t)
        } else {
            prev
        }
    }
}

/// `s.split(c).map(trim).filter(non-empty)` as strings.
pub fn split_trim_nonempty(s: &[char], c: char) -> (r: Vec<String>)
    ensures
        views(r@) == nonempty_trimmed(split_char(s@, c)),
{
    let pieces = split_char_slice(s, c);
    let ghost ps = seqs(pieces@);
    let mut r: Vec<String> = Vec::new();
    let mut i: usize = 0;
    assert(ps.take(0) =~= Seq::<Seq<char>>::empty());
    while i < pieces.len()
        invariant
            i <= pieces@.len(),
            ps == seqs(pieces@),
            views(r@) == nonempty_trimmed(ps.take(i as int)),
        decreases pieces@.len() - i,
    {
        let t = trim_slice(pieces[i].as_slice());
        proof {
            assert(ps.take(i + 1).drop_last() =~= ps.take(i as int));
        }
        if t.len() > 0 {
            let st = string_of(t);
            let ghost before = r@;
            r.push(st);
            assert(views(r@) =~= views(before).push(st@));
        }
        i = i + 1;
    }
    assert(ps.take(pieces@.len() as int) =~= ps);
    r
}


/// Whitespace-separated words (`str::split_whitespace`).
pub open spec fn words(s: Seq<char>) -> Seq<Seq<char>>
    decreases s.len(),
{
    let t = trim_start(s);
    if t.len() == 0 {
        Seq::empty()
    } else {
        let e = match first(t, |c: char| is_ws(c)) {
            Some(e) => e,
            None => t.len() as int,
        };
        if 0 < e <= t.len() && t.len() <= s.len() {
            seq![t.subrange(0, e)] + words(t.subrange(e, t.len() as int))
        } else {
            Seq::empty()
        }
    }
}

/// `str::split_whitespace` on a character slice.
pub fn words_of(s: &[char]) -> (r: Vec<Vec<char>>)
    ensures
        seqs(r@) == words(s@),
{
    let mut out: Vec<Vec<char>> = Vec::new();
    let mut pos: usize = 0;
    let ghost f = |c: char| is_ws(c);
    assert(s@.subrange(0, s@.len() as int) =~= s@);
    loop
        invariant
            pos <= s@.len(),
            f == (|c: char| is_ws(c)),
            seqs(out@) + words(s@.subrange(pos as int, s@.len() as int)) == words(s@),
        decreases s@.len() - pos,
    {
        let rest = &s[pos..s.len()];
        let k = trim_start_index(rest);
        let ghost t = trim_start(rest@);
        if k == rest.len() {
            assert(words(rest@) =~= Seq::<Seq<char>>::empty());
            assert(seqs(out@) + words(rest@) =~= seqs(out@));
            return out;
        }
        let mut e: usize = k;
        while e < rest.len() && !is_whitespace(rest[e])
            invariant
                k < e <= rest@.len() || e == k,
                k < rest@.len(),
                t == rest@.subrange(k as int, rest@.len() as int),
                f == (|c: char| is_ws(c)),
                !is_ws(rest@[k as int]),
                forall|j: int| k <= j < e ==> !is_ws(#[trigger] rest@[j]),
            decreases rest@.len() - e,
        {
            e = e + 1;
        }
        proof {
            let el = (e - k) as int;
            if e < rest@.len() {
                assert(is_ws(t[el]));
            }
            assert forall|j: int| 0 <= j < el implies !f(#[trigger] t[j]) by {
                assert(t[j] == rest@[k + j]);
            }
            lemma_first_from(t, f, 0);
            assert(first(t, f) == if e < rest@.len() { Some(el) } else { None::<int> }) by {
                match first(t, f) {
                    Some(q) => {
                        if q < el {
                            assert(!f(t[q]));
                        }
                        if q > el {
                            assert(f(t[el]));
                        }
                    },
                    None => {},
                }
            }
            assert(t.subrange(0, el) =~= rest@.subrange(k as int, e as int));
            assert(t.subrange(el, t.len() as int) =~= s@.subrange((pos + e) as int, s@.len() as int));
        }
        let w = slice_to_vec(&rest[k..e]);
        let ghost before = seqs(out@);
        out.push(w);
        assert(seqs(out@) =~= before.push(w@));
        assert(seqs(out@) + words(s@.subrange((pos + e) as int, s@.len() as int)) =~= before + words(rest@));
        pos = pos + e;
    }
}

/// The XML escape of a character: `&`, `<`, `>` and `"` as entities.
pub open spec fn xml_char(c: char) -> Seq<char> {
    if c == '&' {
        "&amp;"@
    } else if c == '<' {
        "&lt;"@
    } else if c == '>' {
        "&gt;"@
    } else if c == '"' {
        "&quot;"@
    } else {
        seq![c]
    }
}

/// Text with `&`, `<`, `>` and `"` escaped for XML.
pub fn escape_xml(s: &str) -> (r: String)
    ensures
        r@ == flat(s@, |c: char| xml_char(c)),
{
    let cs = chars_of(s);
    let ghost f = |c: char| xml_char(c);
    let mut out = String::new();
    let mut i: usize = 0;
    while i < cs.len()
        invariant
            i <= cs@.len(),
            cs@ == s@,
            f == (|c: char| xml_char(c)),
            out@ == flat(cs@.take(i as int), f),
        decreases cs@.len() - i,
    {
        proof {
            lemma_flat_step(cs@, f, i as int);
        }
        let c = cs[i];
        if c == '&' {
            proof { reveal_strlit("&amp;"); }
            out.append("&amp;");
        } else if c == '<' {
            proof { reveal_strlit("&lt;"); }
            out.append("&lt;");
        } else if c == '>' {
            proof { reveal_strlit("&gt;"); }
            out.append("&gt;");
        } else if c == '"' {
            proof { reveal_strlit("&quot;"); }
            out.append("&quot;");
        } else {
            push_char(&mut out, c);
        }
        i = i + 1;
    }
    proof {
        lemma_flat_all(cs@, f);
    }
    out
}

} // verus!
