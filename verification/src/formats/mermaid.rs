//! Mermaid text into the canonical model.

use vstd::prelude::*;
use crate::text::{
    chars_of, decimal, find, find_slice, lines, lines_of, push_decimal, seqs, slice_to_vec,
    starts_with, string_from, string_of, trim, trim_slice, push_chars, lemma_find_from,
};
use crate::ir::{CURRENT_VERSION, Diagram, Document, IrError};
use crate::sequence::first_content_starts;
use crate::gantt::first_content_is;

verus! {

/// `line N: message`, or the message alone (how a parse error prints).
pub open spec fn err_text(e: (Seq<char>, Option<int>)) -> Seq<char> {
    match e.1 {
        Some(l) => "line "@ + decimal(l as nat) + ": "@ + e.0,
        None => e.0,
    }
}

/// The error of the parser chosen for `src`, if it fails.
pub open spec fn mermaid_error(src: Seq<char>) -> Option<Seq<char>> {
    if first_content_starts(src, "sequenceDiagram"@) {
        match crate::sequence::seq_parse(src) {
            Ok(_) => None,
            Err(e) => Some(err_text(e)),
        }
    } else if first_content_starts(src, "classDiagram"@) {
        match crate::class::class_parse(src) {
            Ok(_) => None,
            Err(e) => Some(err_text(e)),
        }
    } else if first_content_is(src, "gantt"@) {
        match crate::gantt::gantt_parse(src) {
            Ok(_) => None,
            Err(e) => Some(err_text(e)),
        }
    } else if first_content_starts(src, "stateDiagram"@) {
        match crate::state::state_parse(src) {
            Ok(_) => None,
            Err(e) => Some(err_text(e)),
        }
    } else if first_content_starts(src, "erDiagram"@) {
        match crate::er::er_parse(src) {
            Ok(_) => None,
            Err(e) => Some(err_text(e)),
        }
    } else {
        None
    }
}

/// `d` is what the chosen parser reads from `src`.
pub open spec fn read_as(src: Seq<char>, d: Diagram) -> bool {
    if first_content_starts(src, "sequenceDiagram"@) {
        d matches Diagram::Sequence(s) && crate::sequence::seq_parse(src) == Ok::<_, (Seq<char>, Option<int>)>(crate::sequence::seq_v(s))
    } else if first_content_starts(src, "classDiagram"@) {
        d matches Diagram::Class(c) && crate::class::class_parse(src) == Ok::<_, (Seq<char>, Option<int>)>(crate::class::cd_v(c))
    } else if first_content_is(src, "gantt"@) {
        d matches Diagram::Gantt(g) && crate::gantt::gantt_parse(src) == Ok::<_, (Seq<char>, Option<int>)>(crate::gantt::gantt_v(g))
    } else if first_content_starts(src, "stateDiagram"@) {
        d matches Diagram::State(s) && crate::state::state_parse(src) == Ok::<_, (Seq<char>, Option<int>)>(crate::state::sd_v(s))
    } else if first_content_starts(src, "erDiagram"@) {
        d matches Diagram::Er(e) && crate::er::er_parse(src) == Ok::<_, (Seq<char>, Option<int>)>(crate::er::er_v(e))
    } else {
        d matches Diagram::Flowchart(f) && f.rankdir@ == crate::parser::flow_rankdir(src) && crate::parser::flow_of(f)
            == crate::parser::flow_parse(src) && crate::parser::plain(f)
    }
}

/// What reading one Mermaid diagram gives.
pub open spec fn diagram_result(src: Seq<char>, r: Result<Diagram, IrError>) -> bool {
    match mermaid_error(src) {
        Some(m) => r matches Err(e) && e.message@ == m,
        None => r matches Ok(d) && read_as(src, d),
    }
}

fn err_of(message: String, line: Option<usize>) -> (e: IrError)
    ensures
        e.message@ == err_text((message@, match line {
            Some(l) => Some(l as int),
            None => None,
        })),
{
    match line {
        Some(l) => {
            let mut m = string_from("line ");
            push_decimal(&mut m, l);
            m.append(": ");
            m.append(message.as_str());
            IrError { message: m }
        },
        None => IrError { message },
    }
}

/// Read one Mermaid diagram, choosing the parser by its header.
pub fn parse(source: &str) -> (r: Result<Diagram, IrError>)
    ensures
        diagram_result(source@, r),
{
    if crate::sequence::is_sequence(source) {
        match crate::sequence::parse(source) {
            Ok(d) => Ok(Diagram::Sequence(d)),
            Err(e) => Err(err_of(e.message, e.line)),
        }
    } else if crate::class::is_class(source) {
        match crate::class::parse(source) {
            Ok(d) => Ok(Diagram::Class(d)),
            Err(e) => Err(err_of(e.message, e.line)),
        }
    } else if crate::gantt::is_gantt(source) {
        match crate::gantt::parse(source) {
            Ok(d) => Ok(Diagram::Gantt(d)),
            Err(e) => Err(err_of(e.message, e.line)),
        }
    } else if crate::state::is_state(source) {
        match crate::state::parse(source) {
            Ok(d) => Ok(Diagram::State(d)),
            Err(e) => Err(err_of(e.message, e.line)),
        }
    } else if crate::er::is_er(source) {
        match crate::er::parse(source) {
            Ok(d) => Ok(Diagram::Er(d)),
            Err(e) => Err(err_of(e.message, e.line)),
        }
    } else {
        match crate::parser::parse(source) {
            Ok(d) => Ok(Diagram::Flowchart(d)),
            Err(e) => Err(err_of(e.message, e.line)),
        }
    }
}

// ---------------------------------------------------------------- chunks

/// The marker that starts a diagram of a multi-diagram file.
pub open spec fn marker() -> Seq<char> {
    "%% diagram "@
}

/// Chunks finished so far and the text of the current one, after lines `ls`.
pub open spec fn chunk_state(ls: Seq<Seq<char>>) -> (Seq<Seq<char>>, Seq<char>)
    decreases ls.len(),
{
    if ls.len() == 0 {
        (Seq::empty(), Seq::empty())
    } else {
        let (cs, cur) = chunk_state(ls.drop_last());
        let l = ls.last();
        if marker().is_prefix_of(trim(l)) {
            if trim(cur).len() > 0 {
                (cs.push(trim(cur)), Seq::empty())
            } else {
                (cs, cur)
            }
        } else {
            (cs, cur + l + "\n"@)
        }
    }
}

/// The diagrams of a file split on `%% diagram N:` markers.
pub open spec fn chunks_of(src: Seq<char>) -> Seq<Seq<char>> {
    if find(src, marker()) is None {
        seq![src]
    } else {
        let (cs, cur) = chunk_state(lines(src));
        let all = if trim(cur).len() > 0 {
            cs.push(trim(cur))
        } else {
            cs
        };
        if all.len() == 0 {
            seq![src]
        } else {
            all
        }
    }
}

/// Split a Mermaid file on `%% diagram N:` markers.
pub fn split_mermaid_chunks(source: &str) -> (r: Vec<String>)
    ensures
        crate::text::views(r@) == chunks_of(source@),
{
    let cs = chars_of(source);
    let mk = chars_of("%% diagram ");
    if find_slice(cs.as_slice(), mk.as_slice()).is_none() {
        let v = vec![string_from(source)];
        assert(crate::text::views(v@) =~= seq![source@]);
        return v;
    }
    let ls = lines_of(cs.as_slice());
    let ghost all = seqs(ls@);
    let mut chunks: Vec<String> = Vec::new();
    let mut cur: Vec<char> = Vec::new();
    let mut i: usize = 0;
    assert(all.take(0) =~= Seq::<Seq<char>>::empty());
    while i < ls.len()
        invariant
            i <= ls@.len(),
            all == seqs(ls@),
            all == lines(source@),
            mk@ == marker(),
            (crate::text::views(chunks@), cur@) == chunk_state(all.take(i as int)),
        decreases ls@.len() - i,
    {
        assert(all.take(i + 1).drop_last() =~= all.take(i as int));
        assert(all[i as int] == ls@[i as int]@);
        let l = ls[i].as_slice();
        if starts_with(trim_slice(l), mk.as_slice()) {
            let t = trim_slice(cur.as_slice());
            if t.len() > 0 {
                let ghost cv = crate::text::views(chunks@);
                chunks.push(string_of(t));
                assert(crate::text::views(chunks@) =~= cv.push(trim(cur@)));
                cur = Vec::new();
                assert(cur@ =~= Seq::<char>::empty());
            }
        } else {
            let ghost c0 = cur@;
            let mut j: usize = 0;
            while j < l.len()
                invariant
                    j <= l@.len(),
                    cur@ == c0 + l@.take(j as int),
                decreases l@.len() - j,
            {
                cur.push(l[j]);
                assert(l@.take(j + 1) =~= l@.take(j as int).push(l@[j as int]));
                j = j + 1;
            }
            cur.push('\n');
            proof {
                reveal_strlit("\n");
            }
            assert(cur@ =~= c0 + l@ + "\n"@);
        }
        i = i + 1;
    }
    assert(all.take(ls@.len() as int) =~= all);
    let t = trim_slice(cur.as_slice());
    if t.len() > 0 {
        let ghost cv = crate::text::views(chunks@);
        chunks.push(string_of(t));
        assert(crate::text::views(chunks@) =~= cv.push(trim(cur@)));
    }
    if chunks.len() == 0 {
        let v = vec![string_from(source)];
        assert(crate::text::views(v@) =~= seq![source@]);
        return v;
    }
    chunks
}

/// What reading a Mermaid file into a document gives: one diagram per chunk,
/// or the error of the first chunk that fails.
pub open spec fn document_result(src: Seq<char>, r: Result<Document, IrError>) -> bool {
    let cs = chunks_of(src);
    &&& (r is Err <==> exists|i: int| 0 <= i < cs.len() && (#[trigger] mermaid_error(cs[i])) is Some)
    &&& match r {
        Ok(doc) => doc.version == CURRENT_VERSION && doc.diagrams@.len() == cs.len() && forall|i: int|
            0 <= i < cs.len() ==> #[trigger] read_as(cs[i], doc.diagrams@[i]),
        Err(e) => exists|i: int|
            0 <= i < cs.len() && mermaid_error(cs[i]) == Some(e.message@) && forall|j: int|
                0 <= j < i ==> (#[trigger] mermaid_error(cs[j])) is None,
    }
}

/// Read a Mermaid file (possibly several diagrams after `%% diagram N:` markers).
pub fn parse_to_document(source: &str) -> (r: Result<Document, IrError>)
    ensures
        document_result(source@, r),
{
    let chunks = split_mermaid_chunks(source);
    let ghost cs = crate::text::views(chunks@);
    let mut diagrams: Vec<Diagram> = Vec::new();
    let mut i: usize = 0;
    while i < chunks.len()
        invariant
            i <= chunks@.len(),
            cs == crate::text::views(chunks@),
            cs == chunks_of(source@),
            diagrams@.len() == i,
            forall|k: int| 0 <= k < i ==> (#[trigger] mermaid_error(cs[k])) is None,
            forall|k: int| 0 <= k < i ==> #[trigger] read_as(cs[k], diagrams@[k]),
        decreases chunks@.len() - i,
    {
        assert(cs[i as int] == chunks@[i as int]@);
        match parse(chunks[i].as_str()) {
            Ok(d) => {
                diagrams.push(d);
            },
            Err(e) => {
                assert(mermaid_error(cs[i as int]) == Some(e.message@));
                return Err(e);
            },
        }
        i = i + 1;
    }
    Ok(Document { version: CURRENT_VERSION, diagrams })
}


/// A Mermaid diagram header.
pub open spec fn mermaid_header(t: Seq<char>) -> bool {
    ||| "graph"@.is_prefix_of(t)
    ||| "flowchart"@.is_prefix_of(t)
    ||| "sequenceDiagram"@.is_prefix_of(t)
    ||| "classDiagram"@.is_prefix_of(t)
    ||| "gantt"@.is_prefix_of(t)
    ||| "stateDiagram"@.is_prefix_of(t)
    ||| "erDiagram"@.is_prefix_of(t)
}

/// The first content line (skipping blanks and `%%` comments) is a Mermaid header.
pub open spec fn mermaid_like(src: Seq<char>) -> bool {
    let ls = crate::text::kept_numbered(lines(src), |l: Seq<char>| crate::text::keep_content(l));
    ls.len() > 0 && mermaid_header(ls[0].1)
}

/// Whether text opens, after any `%%` comments, with a Mermaid diagram header.
pub fn looks_like_mermaid(source: &str) -> (b: bool)
    ensures
        b == mermaid_like(source@),
{
    let ls = crate::text::numbered_lines(source);
    let ghost nl = crate::text::numbered(ls@);
    if ls.len() == 0 {
        return false;
    }
    assert(nl[0] == (ls@[0].0 as int, ls@[0].1@));
    let t = ls[0].1.as_slice();
    starts_with(t, chars_of("graph").as_slice()) || starts_with(t, chars_of("flowchart").as_slice())
        || starts_with(t, chars_of("sequenceDiagram").as_slice()) || starts_with(t, chars_of("classDiagram").as_slice())
        || starts_with(t, chars_of("gantt").as_slice()) || starts_with(t, chars_of("stateDiagram").as_slice())
        || starts_with(t, chars_of("erDiagram").as_slice())
}

} // verus!
