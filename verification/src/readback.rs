//! Read-after-write laws: what the flowchart reader gives back of the lines
//! that the Mermaid writer prints.

use vstd::prelude::*;
use crate::diagram::{
    arrow_text, edge_line, flowchart_mermaid, fmt_id, id_char, mermaid_body, node_line, shape_close, shape_open,
    Diagram, Edge, EdgeStyle, Node, NodeShape,
};
use crate::parser::{
    arrow_at, chain_line, collect_line, empty_flow, ensure, extract_label, flow_lines, flow_of, flow_parse, node_def,
    run, segs_upto, seg_step, split_arrows, split_arrows_from, valid_id, unquote, visit, Flow, Mode, Seg,
};
use crate::text::{
    decimal, find, find_char, flat, is_ws, join, keep_content, keep_flow, kept_lines, kept_numbered,
    lemma_find_char_from, lemma_find_from, lemma_join_step, lemma_trim_fixed, lines, occurs_at, strip_cr, trim,
    trim_end, trim_start,
};
use crate::ir::{
    chunk_text, diagram_mermaid, document_mermaid, kind_of, Document, IrError, Kind,
};
use crate::formats::mermaid::{
    chunk_state, chunks_of, document_result, marker, mermaid_error, read_as,
};
use crate::sequence::first_content_starts;
use crate::gantt::first_content_is;

verus! {

/// No bracket, parenthesis, brace or double quote.
pub open spec fn plain_text(s: Seq<char>) -> bool {
    forall|i: int| 0 <= i < s.len() ==> #[trigger] s[i] != '[' && s[i] != ']' && s[i] != '{' && s[i] != '}'
        && s[i] != '(' && s[i] != ')' && s[i] != '"'
}

/// A bare node id: a non-empty word of id characters, with no whitespace,
/// bracket, parenthesis, brace or double quote.
pub open spec fn word_id(id: Seq<char>) -> bool {
    &&& id.len() > 0
    &&& plain_text(id)
    &&& forall|i: int| 0 <= i < id.len() ==> id_char(#[trigger] id[i]) && !is_ws(id[i])
}

pub proof fn lemma_find_first(s: Seq<char>, p: Seq<char>, k: int)
    requires
        0 <= k,
        occurs_at(s, p, k),
        forall|j: int| 0 <= j < k ==> !occurs_at(s, p, j),
    ensures
        find(s, p) == Some(k),
{
    lemma_find_from(s, p, 0);
}

pub proof fn lemma_find_absent(s: Seq<char>, p: Seq<char>)
    requires
        forall|j: int| 0 <= j ==> !occurs_at(s, p, j),
    ensures
        find(s, p) is None,
{
    lemma_find_from(s, p, 0);
}

/// The core of a printed node definition reads back as the node.
#[verifier::rlimit(80)]
#[verifier::spinoff_prover]
proof fn lemma_node_core(id: Seq<char>, text: Seq<char>, shape: NodeShape)
    requires
        word_id(id),
        plain_text(text),
    ensures
        node_def(id + shape_open(shape) + text + shape_close(shape)) == Some((id, text, shape)),
{
    reveal_strlit("[(");
    reveal_strlit(")]");
    reveal_strlit("[");
    reveal_strlit("]");
    reveal_strlit("{{");
    reveal_strlit("}}");
    reveal_strlit("{");
    reveal_strlit("}");
    reveal_strlit("((");
    reveal_strlit("))");
    reveal_strlit("(");
    reveal_strlit(")");
    let o = shape_open(shape);
    let c = shape_close(shape);
    let s = id + o + text + c;
    let l = id.len() as int;
    let n = s.len() as int;
    assert(forall|j: int| 0 <= j < l ==> s[j] == id[j]);
    assert(forall|j: int| l <= j < l + o.len() ==> s[j] == o[j - l]);
    assert(forall|j: int| l + o.len() <= j < l + o.len() + text.len() ==> s[j] == text[j - l - o.len()]);
    assert(forall|j: int| l + o.len() + text.len() <= j < n ==> s[j] == c[j - l - o.len() - text.len()]);
    lemma_trim_fixed(s);
    assert(trim(s) == s);
    assert(valid_id(id));
    assert(unquote(id) == id);
    // Occurrences of a bracket pattern begin with its first character.
    assert forall|p: Seq<char>, j: int| p.len() > 0 && #[trigger] occurs_at(s, p, j) implies s[j] == p[0] && (p.len() > 1 ==> s[j + 1] == p[1]) by {
        assert(s.subrange(j, j + p.len())[0] == s[j]);
        if p.len() > 1 {
            assert(s.subrange(j, j + p.len())[1] == s[j + 1]);
        }
    }
    assert(s.subrange(0, l) =~= id);
    assert(s.subrange(l + o.len(), n - c.len()) =~= text);
    assert(s.subrange(l, l + o.len()) =~= o);
    assert(s.subrange(n - c.len(), n) =~= c);
    assert(c.is_suffix_of(s));
    match shape {
        NodeShape::Cylinder => {
            lemma_find_first(s, "[("@, l);
        },
        NodeShape::Rect => {
            lemma_find_absent(s, "[("@);
            lemma_find_first(s, "["@, l);
        },
        NodeShape::Hexagon => {
            lemma_find_absent(s, "[("@);
            lemma_find_absent(s, "["@);
            lemma_find_first(s, "{{"@, l);
        },
        NodeShape::Diamond => {
            lemma_find_absent(s, "[("@);
            lemma_find_absent(s, "["@);
            lemma_find_absent(s, "{{"@);
            lemma_find_first(s, "{"@, l);
        },
        NodeShape::Circle => {
            lemma_find_absent(s, "[("@);
            lemma_find_absent(s, "["@);
            lemma_find_absent(s, "{{"@);
            lemma_find_absent(s, "{"@);
            lemma_find_first(s, "(("@, l);
        },
        NodeShape::Stadium => {
            lemma_find_absent(s, "[("@);
            lemma_find_absent(s, "["@);
            lemma_find_absent(s, "{{"@);
            lemma_find_absent(s, "{"@);
            lemma_find_absent(s, "(("@);
            lemma_find_first(s, "("@, l);
            assert(!text.contains('['));
        },
    }
}

/// The core of a node line: id, brackets and text.
pub open spec fn node_core(n: Node) -> Seq<char> {
    n.id@ + shape_open(n.shape) + n.text@ + shape_close(n.shape)
}

proof fn lemma_node_line_trim(n: Node)
    requires
        word_id(n.id@),
    ensures
        trim(node_line(n)) == node_core(n),
        trim(node_core(n)) == node_core(n),
        fmt_id(n.id@) == n.id@,
{
    let id = n.id@;
    assert(fmt_id(id) == id);
    let core = node_core(n);
    reveal_strlit("    ");
    reveal_strlit("\n");
    let line = node_line(n);
    assert(line =~= "    "@ + core + "\n"@);
    let t1 = core + "\n"@;
    assert(!is_ws(core[0])) by {
        assert(core[0] == id[0]);
    }
    assert(line.drop_first().drop_first().drop_first().drop_first() =~= t1);
    assert(trim_start(line) == trim_start(line.drop_first()));
    assert(trim_start(line.drop_first()) == trim_start(line.drop_first().drop_first()));
    assert(trim_start(line.drop_first().drop_first()) == trim_start(line.drop_first().drop_first().drop_first()));
    assert(trim_start(line.drop_first().drop_first().drop_first()) == trim_start(t1));
    assert(trim_start(t1) == t1);
    assert(t1.drop_last() =~= core);
    assert(trim_end(t1) == trim_end(core));
    reveal_strlit("]");
    reveal_strlit("}");
    reveal_strlit(")");
    reveal_strlit(")]");
    reveal_strlit("}}");
    reveal_strlit("))");
    let c = shape_close(n.shape);
    assert(core.last() == c[c.len() - 1]);
    assert(!is_ws(core.last()));
    lemma_trim_fixed(core);
}

/// A node line that the Mermaid writer prints reads back, through the
/// flowchart reader's node definitions, as the node's id, text and shape,
/// where the id is a bare word and the text holds no bracket, parenthesis,
/// brace or double quote.
pub proof fn law_node_line_reads_back(n: Node)
    requires
        word_id(n.id@),
        plain_text(n.text@),
    ensures
        node_def(node_line(n)) == Some((n.id@, n.text@, n.shape)),
{
    lemma_node_line_trim(n);
    lemma_node_core(n.id@, n.text@, n.shape);
}

/// What a bare id holds besides id characters: no bracket, parenthesis,
/// brace, double quote, bar, dash, equals sign or line break.
pub open spec fn free_text(s: Seq<char>) -> bool {
    &&& plain_text(s)
    &&& forall|i: int| 0 <= i < s.len() ==> #[trigger] s[i] != '|' && s[i] != '-' && s[i] != '='
        && s[i] != '\n' && s[i] != '\r'
}

/// The words that open a statement of their own.
pub open spec fn statement_word(id: Seq<char>) -> bool {
    ||| id == "graph"@
    ||| id == "subgraph"@
    ||| id == "end"@
    ||| id == "style"@
    ||| id == "classDef"@
    ||| id == "class"@
    ||| id == "linkStyle"@
}

/// A character that arrow tokens are made of.
pub open spec fn token_char(c: char) -> bool {
    c == '-' || c == '.' || c == '=' || c == '>'
}

/// No arrow token (`-->`, `-.->`, `==>`, `===`, `->`) occurs in the text.
pub open spec fn no_arrow(s: Seq<char>) -> bool {
    forall|j: int| 0 <= j < s.len() ==> #[trigger] arrow_at(s, j) is None
}

/// A node text or edge label that the flowchart reader takes as it stands:
/// no bracket, parenthesis, brace, double quote, bar or line break, and no
/// arrow token.
pub open spec fn text_ok(s: Seq<char>) -> bool {
    &&& plain_text(s)
    &&& no_arrow(s)
    &&& forall|i: int| 0 <= i < s.len() ==> #[trigger] s[i] != '|' && s[i] != '\n' && s[i] != '\r'
}

proof fn lemma_arrow_none_char(s: Seq<char>, k: int)
    requires
        0 <= k < s.len(),
        s[k] != '-',
        s[k] != '=',
    ensures
        arrow_at(s, k) is None,
{
    reveal_strlit("-.->");
    reveal_strlit("-->");
    reveal_strlit("==>");
    reveal_strlit("===");
    reveal_strlit("->");
    assert forall|p: Seq<char>| p.len() > 0 && (p[0] == '-' || p[0] == '=') implies !#[trigger] occurs_at(s, p, k) by {
        if occurs_at(s, p, k) {
            assert(s.subrange(k, k + p.len())[0] == s[k]);
        }
    }
    assert("-.->"@[0] == '-' && "-->"@[0] == '-' && "==>"@[0] == '=' && "==="@[0] == '=' && "->"@[0] == '-');
}

/// Arrow tokens are made of token characters.
proof fn lemma_arrow_tokens()
    ensures
        forall|j: int| 0 <= j < 4 ==> token_char(#[trigger] "-.->"@[j]),
        forall|j: int| 0 <= j < 3 ==> token_char(#[trigger] "-->"@[j]),
        forall|j: int| 0 <= j < 3 ==> token_char(#[trigger] "==>"@[j]),
        forall|j: int| 0 <= j < 3 ==> token_char(#[trigger] "==="@[j]),
        forall|j: int| 0 <= j < 2 ==> token_char(#[trigger] "->"@[j]),
        "-.->"@.len() == 4 && "-->"@.len() == 3 && "==>"@.len() == 3 && "==="@.len() == 3 && "->"@.len() == 2,
{
    reveal_strlit("-.->");
    reveal_strlit("-->");
    reveal_strlit("==>");
    reveal_strlit("===");
    reveal_strlit("->");
}

/// An occurrence of a token pattern that starts inside `t`, placed at `a`
/// in `s` and followed by a character that is no token character, lies in
/// `t`.
proof fn lemma_occurs_inside(s: Seq<char>, a: int, t: Seq<char>, p: Seq<char>, k: int)
    requires
        0 <= a,
        a + t.len() <= s.len(),
        s.subrange(a, a + t.len()) == t,
        a + t.len() < s.len() ==> !token_char(s[a + t.len()]),
        forall|j: int| 0 <= j < p.len() ==> token_char(#[trigger] p[j]),
        a <= k < a + t.len(),
        occurs_at(s, p, k),
    ensures
        occurs_at(t, p, k - a),
{
    let b = a + t.len();
    if k + p.len() > b {
        assert(s.subrange(k, k + p.len())[b - k] == s[b]);
        assert(token_char(p[b - k]));
    } else {
        assert(t.subrange(k - a, k - a + p.len()) =~= s.subrange(k, k + p.len()));
    }
}

/// No arrow token starts inside a text without one, placed in a line and
/// followed by a character that is no token character.
proof fn lemma_arrow_local(s: Seq<char>, a: int, t: Seq<char>)
    requires
        0 <= a,
        a + t.len() <= s.len(),
        s.subrange(a, a + t.len()) == t,
        a + t.len() < s.len() ==> !token_char(s[a + t.len()]),
        no_arrow(t),
    ensures
        forall|k: int| a <= k < a + t.len() ==> #[trigger] arrow_at(s, k) is None,
{
    lemma_arrow_tokens();
    assert forall|k: int| a <= k < a + t.len() implies #[trigger] arrow_at(s, k) is None by {
        assert(arrow_at(t, k - a) is None);
        if occurs_at(s, "-.->"@, k) {
            lemma_occurs_inside(s, a, t, "-.->"@, k);
        }
        if occurs_at(s, "-->"@, k) {
            lemma_occurs_inside(s, a, t, "-->"@, k);
        }
        if occurs_at(s, "==>"@, k) {
            lemma_occurs_inside(s, a, t, "==>"@, k);
        }
        if occurs_at(s, "==="@, k) {
            lemma_occurs_inside(s, a, t, "==="@, k);
        }
        if occurs_at(s, "->"@, k) {
            lemma_occurs_inside(s, a, t, "->"@, k);
        }
    }
}

/// An id that the writer prints bare and the reader reads back as itself.
pub open spec fn bare_id(id: Seq<char>) -> bool {
    word_id(id) && free_text(id) && !statement_word(id)
}

proof fn lemma_split_plain(s: Seq<char>, i: int, start: int)
    requires
        0 <= start <= i <= s.len(),
        forall|j: int| i <= j < s.len() ==> #[trigger] arrow_at(s, j) is None,
    ensures
        split_arrows_from(s, i, start) == (if start < s.len() {
            (seq![s.subrange(start, s.len() as int)], Seq::<EdgeStyle>::empty())
        } else {
            (Seq::<Seq<char>>::empty(), Seq::<EdgeStyle>::empty())
        }),
    decreases s.len() - i,
{
    if i < s.len() {
        assert(arrow_at(s, i) is None);
        lemma_split_plain(s, i + 1, start);
    }
}

/// A line that starts with a word id other than `w`, followed by a character
/// that is not in `w`, does not start with `w` and a space.
proof fn lemma_no_keyword(line: Seq<char>, id: Seq<char>, w: Seq<char>)
    requires
        id.len() > 0,
        line.len() > id.len(),
        forall|j: int| 0 <= j < id.len() ==> line[j] == #[trigger] id[j] && !is_ws(id[j]),
        id != w,
        forall|j: int| 0 <= j < w.len() ==> #[trigger] w[j] != line[id.len() as int] && !is_ws(w[j]),
    ensures
        !(w + " "@).is_prefix_of(line),
{
    reveal_strlit(" ");
    let kw = w + " "@;
    if kw.is_prefix_of(line) {
        assert(line.subrange(0, kw.len() as int) == kw);
        let m = w.len() as int;
        assert(kw[m] == ' ');
        if id.len() > m {
            assert(line[m] == kw[m]);
            assert(line[m] == id[m]);
        } else if id.len() < m {
            let l = id.len() as int;
            assert(line[l] == kw[l]);
            assert(kw[l] == w[l]);
        } else {
            assert(id =~= w) by {
                assert forall|j: int| 0 <= j < m implies id[j] == w[j] by {
                    assert(line[j] == kw[j]);
                }
            }
        }
    }
}

proof fn lemma_no_bar(s: Seq<char>)
    requires
        forall|j: int| 0 <= j < s.len() ==> #[trigger] s[j] != '|',
    ensures
        find_char(s, '|') is None,
{
    lemma_find_char_from(s, '|', 0);
}

proof fn lemma_node_core_chars(n: Node)
    requires
        bare_id(n.id@),
        text_ok(n.text@),
    ensures
        forall|j: int| 0 <= j < node_core(n).len() ==> #[trigger] arrow_at(node_core(n), j) is None,
        forall|j: int| 0 <= j < node_core(n).len() ==> #[trigger] node_core(n)[j] != '|',
        node_core(n).len() > 0,
{
    reveal_strlit("[(");
    reveal_strlit(")]");
    reveal_strlit("[");
    reveal_strlit("]");
    reveal_strlit("{{");
    reveal_strlit("}}");
    reveal_strlit("{");
    reveal_strlit("}");
    reveal_strlit("((");
    reveal_strlit("))");
    reveal_strlit("(");
    reveal_strlit(")");
    let id = n.id@;
    let core = node_core(n);
    let o = shape_open(n.shape);
    let text = n.text@;
    let c = shape_close(n.shape);
    let l = id.len() as int;
    let a = l + o.len();
    assert(core.subrange(a, a + text.len()) =~= text);
    assert(core[a + text.len()] == c[0]);
    lemma_arrow_local(core, a, text);
    assert forall|j: int| 0 <= j < core.len() implies #[trigger] arrow_at(core, j) is None && core[j] != '|' by {
        if j < l {
            assert(core[j] == id[j]);
            lemma_arrow_none_char(core, j);
        } else if j < a {
            assert(core[j] == o[j - l]);
            lemma_arrow_none_char(core, j);
        } else if j < a + text.len() {
            assert(core[j] == text[j - a]);
        } else {
            assert(core[j] == c[j - a - text.len()]);
            lemma_arrow_none_char(core, j);
        }
    }
}

proof fn lemma_node_core_no_keyword(n: Node)
    requires
        bare_id(n.id@),
    ensures
        !("linkStyle "@.is_prefix_of(node_core(n))),
        !("style "@.is_prefix_of(node_core(n))),
        !("classDef "@.is_prefix_of(node_core(n))),
        !("class "@.is_prefix_of(node_core(n))),
        !("graph "@.is_prefix_of(node_core(n))),
        !("subgraph "@.is_prefix_of(node_core(n))),
{
    reveal_strlit("[(");
    reveal_strlit("[");
    reveal_strlit("{{");
    reveal_strlit("{");
    reveal_strlit("((");
    reveal_strlit("(");
    reveal_strlit("linkStyle");
    reveal_strlit("style");
    reveal_strlit("classDef");
    reveal_strlit("class");
    reveal_strlit("graph");
    reveal_strlit("subgraph");
    reveal_strlit("linkStyle ");
    reveal_strlit("style ");
    reveal_strlit("classDef ");
    reveal_strlit("class ");
    reveal_strlit("graph ");
    reveal_strlit("subgraph ");
    reveal_strlit(" ");
    let id = n.id@;
    let core = node_core(n);
    let o = shape_open(n.shape);
    let l = id.len() as int;
    assert(forall|j: int| 0 <= j < l ==> core[j] == id[j]);
    assert(core[l] == o[0]);
    assert(o[0] == '[' || o[0] == '{' || o[0] == '(');
    assert("linkStyle "@ =~= "linkStyle"@ + " "@);
    assert("style "@ =~= "style"@ + " "@);
    assert("classDef "@ =~= "classDef"@ + " "@);
    assert("class "@ =~= "class"@ + " "@);
    assert("graph "@ =~= "graph"@ + " "@);
    assert("subgraph "@ =~= "subgraph"@ + " "@);
    lemma_no_keyword(core, id, "linkStyle"@);
    lemma_no_keyword(core, id, "style"@);
    lemma_no_keyword(core, id, "classDef"@);
    lemma_no_keyword(core, id, "class"@);
    lemma_no_keyword(core, id, "graph"@);
    lemma_no_keyword(core, id, "subgraph"@);
}

/// A printed node definition, read as a statement, adds its node unless the
/// id is known.
pub proof fn law_node_statement_reads_back(n: Node, f: Flow, sg: Seq<Seq<char>>)
    requires
        bare_id(n.id@),
        text_ok(n.text@),
    ensures
        collect_line(node_core(n), f, sg).0 == ensure(f, n.id@, n.text@, n.shape),
{
    lemma_node_line_trim(n);
    lemma_node_core(n.id@, n.text@, n.shape);
    lemma_node_core_chars(n);
    lemma_node_core_no_keyword(n);
    let core = node_core(n);
    lemma_split_plain(core, 0, 0);
    assert(core.subrange(0, core.len() as int) =~= core);
    lemma_no_bar(core);
    let st = Seg { f, sg, prev: None, pending: None };
    let (segs, arrows) = split_arrows(core);
    assert(segs == seq![core]);
    assert(segs_upto(segs, arrows, 1, st) == seg_step(arrows, 0, core, segs_upto(segs, arrows, 0, st)));
    assert(extract_label(core, None) == (None::<Seq<char>>, core));
}

proof fn lemma_split_skip(s: Seq<char>, i: int, j: int, start: int)
    requires
        0 <= start <= i <= j <= s.len(),
        forall|k: int| i <= k < j ==> #[trigger] arrow_at(s, k) is None,
    ensures
        split_arrows_from(s, i, start) == split_arrows_from(s, j, start),
    decreases j - i,
{
    if i < j {
        assert(arrow_at(s, i) is None);
        lemma_split_skip(s, i + 1, j, start);
    }
}

/// A bare id alone reads as a rectangle node whose text is the id.
proof fn lemma_bare_node_def(id: Seq<char>)
    requires
        word_id(id),
    ensures
        node_def(id) == Some((id, id, NodeShape::Rect)),
        trim(id) == id,
{
    reveal_strlit("[(");
    reveal_strlit("[");
    reveal_strlit("{{");
    reveal_strlit("{");
    reveal_strlit("((");
    reveal_strlit("(");
    lemma_trim_fixed(id);
    assert forall|p: Seq<char>, j: int| p.len() > 0 && (p[0] == '[' || p[0] == '{' || p[0] == '(') implies !#[trigger] occurs_at(id, p, j) by {
        if occurs_at(id, p, j) {
            assert(id.subrange(j, j + p.len())[0] == id[j]);
        }
    }
    lemma_find_absent(id, "[("@);
    lemma_find_absent(id, "["@);
    lemma_find_absent(id, "{{"@);
    lemma_find_absent(id, "{"@);
    lemma_find_absent(id, "(("@);
    lemma_find_absent(id, "("@);
    assert(valid_id(id));
    assert(unquote(id) == id);
}

/// The middle of an edge line: a space, or the label between bars.
pub open spec fn edge_mid(e: Edge) -> Seq<char> {
    if e.label@.len() == 0 {
        " "@
    } else {
        "|"@ + e.label@ + "| "@
    }
}

/// The core of an edge line: ends, arrow and label.
pub open spec fn edge_core(e: Edge) -> Seq<char> {
    e.from@ + " "@ + arrow_text(e.style) + edge_mid(e) + e.to@
}

pub open spec fn edge_ok(e: Edge) -> bool {
    bare_id(e.from@) && bare_id(e.to@) && text_ok(e.label@)
}

proof fn lemma_edge_line_trim(e: Edge)
    requires
        edge_ok(e),
    ensures
        trim(edge_line(e)) == edge_core(e),
        trim(edge_core(e)) == edge_core(e),
{
    reveal_strlit("    ");
    reveal_strlit("\n");
    reveal_strlit(" ");
    let core = edge_core(e);
    assert(fmt_id(e.from@) == e.from@);
    assert(fmt_id(e.to@) == e.to@);
    let line = edge_line(e);
    assert(line =~= "    "@ + core + "\n"@);
    let t1 = core + "\n"@;
    assert(core[0] == e.from@[0]);
    assert(core.last() == e.to@.last());
    assert(!is_ws(e.to@.last()));
    assert(line.drop_first().drop_first().drop_first().drop_first() =~= t1);
    assert(trim_start(line) == trim_start(line.drop_first()));
    assert(trim_start(line.drop_first()) == trim_start(line.drop_first().drop_first()));
    assert(trim_start(line.drop_first().drop_first()) == trim_start(line.drop_first().drop_first().drop_first()));
    assert(trim_start(line.drop_first().drop_first().drop_first()) == trim_start(t1));
    assert(trim_start(t1) == t1);
    assert(t1.drop_last() =~= core);
    assert(trim_end(t1) == trim_end(core));
    lemma_trim_fixed(core);
}

proof fn lemma_edge_split(e: Edge)
    requires
        edge_ok(e),
    ensures
        split_arrows(edge_core(e)) == (seq![e.from@ + " "@, edge_mid(e) + e.to@], seq![e.style]),
{
    reveal_strlit(" ");
    reveal_strlit("|");
    reveal_strlit("| ");
    reveal_strlit("-.->");
    reveal_strlit("-->");
    reveal_strlit("==>");
    reveal_strlit("===");
    reveal_strlit("->");
    let s = edge_core(e);
    let from = e.from@;
    let a = arrow_text(e.style);
    let mid = edge_mid(e);
    let to = e.to@;
    let i = from.len() as int + 1;
    let k = a.len() as int;
    assert(s =~= (from + " "@) + (a + (mid + to)));
    assert forall|j: int| 0 <= j < i implies #[trigger] arrow_at(s, j) is None by {
        if j < from.len() {
            assert(s[j] == from[j]);
        }
        lemma_arrow_none_char(s, j);
    }
    lemma_split_skip(s, 0, i, 0);
    assert(s.subrange(i, i + k) =~= a);
    assert(occurs_at(s, a, i));
    match e.style {
        EdgeStyle::Dashed => {},
        EdgeStyle::Arrow => {
            assert(s[i + 1] == '-');
            assert(!occurs_at(s, "-.->"@, i)) by {
                if occurs_at(s, "-.->"@, i) {
                    assert(s.subrange(i, i + 4)[1] == s[i + 1]);
                }
            }
        },
        EdgeStyle::Thick => {
            assert(!occurs_at(s, "-.->"@, i)) by {
                if occurs_at(s, "-.->"@, i) {
                    assert(s.subrange(i, i + 4)[0] == s[i]);
                }
            }
            assert(!occurs_at(s, "-->"@, i)) by {
                if occurs_at(s, "-->"@, i) {
                    assert(s.subrange(i, i + 3)[0] == s[i]);
                }
            }
        },
    }
    assert(arrow_at(s, i) == Some((e.style, k)));
    let tail = mid + to;
    let lab = e.label@;
    let la = i + k + 1;
    if lab.len() > 0 {
        assert(s.subrange(la, la + lab.len()) =~= lab);
        assert(s[la + lab.len()] == '|');
        lemma_arrow_local(s, la, lab);
    }
    assert forall|j: int| i + k <= j < s.len() implies #[trigger] arrow_at(s, j) is None by {
        let q = j - i - k;
        assert(s[j] == tail[q]);
        if q < mid.len() {
            if lab.len() > 0 {
                if q >= 1 && q < 1 + lab.len() {
                } else {
                    lemma_arrow_none_char(s, j);
                }
            } else {
                lemma_arrow_none_char(s, j);
            }
        } else {
            assert(tail[q] == to[q - mid.len()]);
            lemma_arrow_none_char(s, j);
        }
    }
    lemma_split_plain(s, i + k, i + k);
    assert(s.subrange(i + k, s.len() as int) =~= tail);
    assert(s.subrange(0, i) =~= from + " "@);
}

proof fn lemma_edge_core_no_keyword(e: Edge)
    requires
        edge_ok(e),
    ensures
        !("linkStyle "@.is_prefix_of(edge_core(e))),
        !("style "@.is_prefix_of(edge_core(e))),
        !("classDef "@.is_prefix_of(edge_core(e))),
        !("class "@.is_prefix_of(edge_core(e))),
        !("graph "@.is_prefix_of(edge_core(e))),
        !("subgraph "@.is_prefix_of(edge_core(e))),
{
    reveal_strlit("linkStyle");
    reveal_strlit("style");
    reveal_strlit("classDef");
    reveal_strlit("class");
    reveal_strlit("graph");
    reveal_strlit("subgraph");
    reveal_strlit("linkStyle ");
    reveal_strlit("style ");
    reveal_strlit("classDef ");
    reveal_strlit("class ");
    reveal_strlit("graph ");
    reveal_strlit("subgraph ");
    reveal_strlit(" ");
    let id = e.from@;
    let core = edge_core(e);
    let l = id.len() as int;
    assert(forall|j: int| 0 <= j < l ==> core[j] == id[j]);
    assert(core[l] == ' ');
    assert("linkStyle "@ =~= "linkStyle"@ + " "@);
    assert("style "@ =~= "style"@ + " "@);
    assert("classDef "@ =~= "classDef"@ + " "@);
    assert("class "@ =~= "class"@ + " "@);
    assert("graph "@ =~= "graph"@ + " "@);
    assert("subgraph "@ =~= "subgraph"@ + " "@);
    lemma_no_keyword(core, id, "linkStyle"@);
    lemma_no_keyword(core, id, "style"@);
    lemma_no_keyword(core, id, "classDef"@);
    lemma_no_keyword(core, id, "class"@);
    lemma_no_keyword(core, id, "graph"@);
    lemma_no_keyword(core, id, "subgraph"@);
}

/// The second segment of an edge line gives the label and the target.
proof fn lemma_edge_label(e: Edge)
    requires
        edge_ok(e),
    ensures
        extract_label(edge_mid(e) + e.to@, None) == (if e.label@.len() == 0 {
            None
        } else {
            Some(e.label@)
        }, e.to@),
{
    reveal_strlit(" ");
    reveal_strlit("|");
    reveal_strlit("| ");
    let to = e.to@;
    let lab = e.label@;
    lemma_bare_node_def(to);
    lemma_no_bar(to);
    assert(!is_ws(to.last()));
    if lab.len() == 0 {
        let s0 = " "@ + to;
        assert(edge_mid(e) + to =~= s0);
        assert(s0.drop_first() =~= to);
        assert(trim_start(s0) == trim_start(to));
        assert(trim_start(to) == to) by {
            assert(!is_ws(to[0]));
        }
        assert(trim(s0) == trim_end(to));
    } else {
        let s0 = "|"@ + lab + "| "@ + to;
        assert(edge_mid(e) + to =~= s0);
        assert(s0[0] == '|');
        assert(s0.last() == to.last());
        lemma_trim_fixed(s0);
        lemma_find_char_from(s0, '|', 0);
        assert(find_char(s0, '|') == Some(0int));
        let after = s0.subrange(1, s0.len() as int);
        assert(after =~= lab + "| "@ + to);
        assert forall|j: int| 0 <= j < lab.len() implies after[j] != '|' by {
            assert(after[j] == lab[j]);
        }
        lemma_find_char_from(after, '|', 0);
        let m = lab.len() as int;
        assert(after[m] == '|');
        assert(find_char(after, '|') == Some(m));
        assert(s0.subrange(1, 1 + m) =~= lab);
        assert(s0.subrange(0, 0) =~= Seq::<char>::empty());
        let tail = s0.subrange(m + 2, s0.len() as int);
        assert(tail =~= " "@ + to);
        assert(tail.drop_first() =~= to);
        assert(trim_start(tail) == trim_start(to));
        assert(trim_start(to) == to) by {
            assert(!is_ws(to[0]));
        }
        assert(trim(tail) == to);
        assert(trim(Seq::<char>::empty()) == Seq::<char>::empty());
        let rest = Seq::<char>::empty() + " "@ + to;
        assert(rest =~= " "@ + to);
        assert(rest.drop_first() =~= to);
        assert(trim_start(rest) == trim_start(to));
        assert(trim(rest) == to);
    }
}

/// The nodes an edge statement adds for its ends, where they are new:
/// rectangles whose text is the id.
pub open spec fn ends_added(f: Flow, e: Edge) -> Flow {
    ensure(ensure(f, e.from@, e.from@, NodeShape::Rect), e.to@, e.to@, NodeShape::Rect)
}

/// A printed edge, read as a statement, adds its ends as rectangle nodes
/// where they are new, then the edge with its ends, label and style.
#[verifier::rlimit(60)]
pub proof fn law_edge_statement_adds(e: Edge, f: Flow, sg: Seq<Seq<char>>)
    requires
        edge_ok(e),
    ensures
        collect_line(edge_core(e), f, sg).0 == (Flow {
            edges: ends_added(f, e).edges.push((e.from@, e.to@, e.label@, e.style)),
            ..ends_added(f, e)
        }),
{
    reveal_strlit(" ");
    lemma_edge_core_no_keyword(e);
    lemma_edge_split(e);
    lemma_edge_label(e);
    let from = e.from@;
    lemma_bare_node_def(from);
    lemma_bare_node_def(e.to@);
    lemma_no_bar(from);
    let seg0 = from + " "@;
    assert(seg0.drop_last() =~= from);
    assert(trim_end(seg0) == trim_end(from));
    assert(trim_start(seg0) == seg0) by {
        assert(!is_ws(seg0[0]));
    }
    assert(trim(seg0) == from) by {
        assert(trim_end(from) == from) by {
            assert(!is_ws(from.last()));
        }
    }
    assert(extract_label(from, None) == (None::<Seq<char>>, from));
    let core = edge_core(e);
    let (segs, arrows) = split_arrows(core);
    let st = Seg { f, sg, prev: None, pending: None };
    let g1 = ensure(f, from, from, NodeShape::Rect);
    let g2 = ends_added(f, e);
    let st1 = seg_step(arrows, 0, segs[0], st);
    assert(st1.f == g1);
    assert(st1.prev == Some(from));
    assert(st1.pending is None);
    assert(segs.len() == 2);
    assert(segs_upto(segs, arrows, 0, st) == st);
    assert(segs_upto(segs, arrows, 1, st) == seg_step(arrows, 0, segs[0], segs_upto(segs, arrows, 0, st)));
    assert(segs_upto(segs, arrows, 1, st) == st1);
    assert(segs_upto(segs, arrows, 2, st) == seg_step(arrows, 1, segs[1], segs_upto(segs, arrows, 1, st)));
    let st2 = seg_step(arrows, 1, segs[1], st1);
    crate::text::lemma_trim_idempotent(segs[1]);
    assert(extract_label(trim(segs[1]), None) == extract_label(segs[1], None));
    assert(trim(segs[1]).len() > 0) by {
        if trim(segs[1]).len() == 0 {
            assert(trim(trim(segs[1])) == trim(segs[1]));
        }
    }
    assert(segs[1] == edge_mid(e) + e.to@);
    assert(arrows[0] == e.style);
    let seg = trim(segs[1]);
    let (pending, rest) = extract_label(seg, st1.pending);
    assert(rest == e.to@);
    let label = match pending {
        Some(l) => l,
        None => Seq::<char>::empty(),
    };
    assert(label =~= e.label@);
    let st0 = Seg { pending, ..st1 };
    assert(node_def(rest) == Some((e.to@, e.to@, NodeShape::Rect)));
    let v = visit(st0, e.to@, e.to@, NodeShape::Rect, label, e.style);
    assert(ensure(st0.f, e.to@, e.to@, NodeShape::Rect) == g2);
    assert(v.f == (Flow { edges: g2.edges.push((from, e.to@, e.label@, e.style)), ..g2 }));
    assert(st2 == Seg { pending: None, ..v });
    assert(st2.f == (Flow { edges: g2.edges.push((from, e.to@, e.label@, e.style)), ..g2 }));
    assert(chain_line(core, f, sg).0 == st2.f);
}

/// A printed edge, read as a statement between two known nodes, adds the
/// edge with its ends, label and style, and nothing else.
pub proof fn law_edge_statement_reads_back(e: Edge, f: Flow, sg: Seq<Seq<char>>)
    requires
        edge_ok(e),
        exists|i: int| 0 <= i < f.nodes.len() && (#[trigger] f.nodes[i]).0 == e.from@,
        exists|i: int| 0 <= i < f.nodes.len() && (#[trigger] f.nodes[i]).0 == e.to@,
    ensures
        collect_line(edge_core(e), f, sg).0 == (Flow { edges: f.edges.push((e.from@, e.to@, e.label@, e.style)), ..f }),
{
    law_edge_statement_adds(e, f, sg);
    assert(ensure(f, e.from@, e.from@, NodeShape::Rect) == f);
    assert(ends_added(f, e) == f);
}

/// The text of lines, each ended by a line break.
pub open spec fn nl_text(ls: Seq<Seq<char>>) -> Seq<char> {
    flat(ls, |l: Seq<char>| l + "\n"@)
}

/// A line with no line break and no carriage return at its end.
pub open spec fn one_line(l: Seq<char>) -> bool {
    (forall|j: int| 0 <= j < l.len() ==> #[trigger] l[j] != '\n') && (l.len() == 0 || l.last() != '\r')
}

pub proof fn lemma_flat_front(ls: Seq<Seq<char>>, f: spec_fn(Seq<char>) -> Seq<char>)
    requires
        ls.len() > 0,
    ensures
        flat(ls, f) == f(ls[0]) + flat(ls.drop_first(), f),
    decreases ls.len(),
{
    if ls.len() == 1 {
        assert(ls.drop_last().len() == 0);
        assert(ls.drop_first().len() == 0);
        assert(flat(ls.drop_first(), f) == Seq::<char>::empty());
        assert(flat(ls.drop_last(), f) == Seq::<char>::empty());
        assert(f(ls[0]) + Seq::<char>::empty() =~= f(ls[0]));
        assert(Seq::<char>::empty() + f(ls[0]) =~= f(ls[0]));
    } else {
        lemma_flat_front(ls.drop_last(), f);
        assert(ls.drop_last().drop_first() =~= ls.drop_first().drop_last());
        assert(ls.drop_first().last() == ls.last());
        assert(flat(ls.drop_first(), f) == flat(ls.drop_first().drop_last(), f) + f(ls.drop_first().last()));
        assert((f(ls[0]) + flat(ls.drop_last().drop_first(), f)) + f(ls.last())
            =~= f(ls[0]) + (flat(ls.drop_first().drop_last(), f) + f(ls.last())));
    }
}

pub proof fn lemma_lines_front(a: Seq<char>, rest: Seq<char>)
    requires
        forall|j: int| 0 <= j < a.len() ==> #[trigger] a[j] != '\n',
    ensures
        lines(a + "\n"@ + rest) == seq![strip_cr(a)] + lines(rest),
{
    reveal_strlit("\n");
    let s = a + "\n"@ + rest;
    let m = a.len() as int;
    assert(s[m] == '\n');
    assert forall|j: int| 0 <= j < m implies s[j] != '\n' by {
        assert(s[j] == a[j]);
    }
    lemma_find_char_from(s, '\n', 0);
    assert(find_char(s, '\n') == Some(m));
    assert(s.subrange(0, m) =~= a);
    assert(s.subrange(m + 1, s.len() as int) =~= rest);
}

proof fn lemma_lines_last(a: Seq<char>)
    requires
        a.len() > 0,
        forall|j: int| 0 <= j < a.len() ==> #[trigger] a[j] != '\n',
    ensures
        lines(a) == seq![a],
{
    lemma_find_char_from(a, '\n', 0);
    assert(find_char(a, '\n') is None);
}

/// Lines broken after each of `ls`, then a last line `z`, split back into
/// `ls` and `z`.
proof fn lemma_lines_of_text(ls: Seq<Seq<char>>, z: Seq<char>)
    requires
        forall|i: int| 0 <= i < ls.len() ==> one_line(#[trigger] ls[i]),
        one_line(z),
        z.len() > 0,
    ensures
        lines(nl_text(ls) + z) == ls.push(z),
    decreases ls.len(),
{
    let f = |l: Seq<char>| l + "\n"@;
    if ls.len() == 0 {
        assert(nl_text(ls) + z =~= z);
        lemma_lines_last(z);
        assert(strip_cr(z) == z);
        assert(ls.push(z) =~= seq![z]);
    } else {
        lemma_flat_front(ls, f);
        let a = ls[0];
        assert(one_line(a));
        lemma_lines_of_text(ls.drop_first(), z);
        assert(nl_text(ls) + z =~= a + "\n"@ + (nl_text(ls.drop_first()) + z));
        lemma_lines_front(a, nl_text(ls.drop_first()) + z);
        assert(strip_cr(a) == a);
        assert(seq![a] + ls.drop_first().push(z) =~= ls.push(z));
    }
}

/// Kept lines of lines that are trimmed and kept already are those lines.
proof fn lemma_kept_all(ls: Seq<Seq<char>>, ts: Seq<Seq<char>>)
    requires
        ls.len() == ts.len(),
        forall|i: int| 0 <= i < ls.len() ==> trim(#[trigger] ls[i]) == ts[i] && keep_flow(ts[i]),
    ensures
        kept_lines(ls, |l: Seq<char>| keep_flow(l)) == ts,
    decreases ls.len(),
{
    if ls.len() > 0 {
        lemma_kept_all(ls.drop_last(), ts.drop_last());
        assert(ts.drop_last().push(ts.last()) =~= ts);
    } else {
        assert(ts =~= Seq::<Seq<char>>::empty());
    }
}

pub proof fn lemma_indent_trim(core: Seq<char>)
    requires
        core.len() > 0,
        !is_ws(core[0]),
        !is_ws(core.last()),
    ensures
        trim("    "@ + core) == core,
{
    reveal_strlit("    ");
    let line = "    "@ + core;
    assert(line.drop_first().drop_first().drop_first().drop_first() =~= core);
    assert(trim_start(line) == trim_start(line.drop_first()));
    assert(trim_start(line.drop_first()) == trim_start(line.drop_first().drop_first()));
    assert(trim_start(line.drop_first().drop_first()) == trim_start(line.drop_first().drop_first().drop_first()));
    assert(trim_start(line.drop_first().drop_first().drop_first()) == trim_start(core));
    lemma_trim_fixed(core);
}

/// A node as the reader keeps it.
pub open spec fn node_tuple(n: Node) -> (Seq<char>, Seq<char>, NodeShape) {
    (n.id@, n.text@, n.shape)
}

/// An edge as the reader keeps it.
pub open spec fn edge_tuple(e: Edge) -> (Seq<char>, Seq<char>, Seq<char>, EdgeStyle) {
    (e.from@, e.to@, e.label@, e.style)
}

/// The flow after reading the given nodes' statements in order.
pub open spec fn read_nodes(f: Flow, ns: Seq<Node>) -> Flow
    decreases ns.len(),
{
    if ns.len() == 0 {
        f
    } else {
        read_nodes(ensure(f, ns[0].id@, ns[0].text@, ns[0].shape), ns.drop_first())
    }
}

/// The flow after reading the given edges' statements in order.
pub open spec fn read_edges(f: Flow, es: Seq<Edge>) -> Flow
    decreases es.len(),
{
    if es.len() == 0 {
        f
    } else {
        read_edges(Flow { edges: f.edges.push(edge_tuple(es[0])), ..f }, es.drop_first())
    }
}

pub open spec fn has_id(f: Flow, id: Seq<char>) -> bool {
    exists|i: int| 0 <= i < f.nodes.len() && (#[trigger] f.nodes[i]).0 == id
}

proof fn lemma_read_nodes_keeps(f: Flow, ns: Seq<Node>, id: Seq<char>)
    requires
        has_id(f, id),
    ensures
        has_id(read_nodes(f, ns), id),
        read_nodes(f, ns).edges == f.edges,
    decreases ns.len(),
{
    if ns.len() > 0 {
        let g = ensure(f, ns[0].id@, ns[0].text@, ns[0].shape);
        if !(exists|i: int| 0 <= i < f.nodes.len() && (#[trigger] f.nodes[i]).0 == ns[0].id@) {
            let i = choose|i: int| 0 <= i < f.nodes.len() && (#[trigger] f.nodes[i]).0 == id;
            assert(g.nodes[i] == f.nodes[i]);
        }
        assert(has_id(g, id));
        lemma_read_nodes_keeps(g, ns.drop_first(), id);
    }
}

/// Reading the statements of nodes and then of edges, one per line from
/// line `i` on, gives the nodes added in turn and then the edges.
#[verifier::rlimit(40)]
proof fn lemma_run_statements(t: Seq<Seq<char>>, i: int, f: Flow, ns: Seq<Node>, es: Seq<Edge>)
    requires
        0 <= i <= t.len(),
        t.subrange(i, t.len() as int) == ns.map_values(|n: Node| node_core(n)) + es.map_values(|e: Edge| edge_core(e)),
        forall|k: int| 0 <= k < ns.len() ==> bare_id((#[trigger] ns[k]).id@) && text_ok(ns[k].text@),
        forall|k: int| 0 <= k < es.len() ==> edge_ok(#[trigger] es[k]) && has_id(read_nodes(f, ns), es[k].from@)
            && has_id(read_nodes(f, ns), es[k].to@),
    ensures
        run(t, i, f, Mode::Top) == read_edges(read_nodes(f, ns), es),
    decreases t.len() - i,
{
    let tail = t.subrange(i, t.len() as int);
    if ns.len() > 0 {
        let n = ns[0];
        assert(tail[0] == node_core(n));
        assert(t[i] == tail[0]);
        lemma_node_core_no_keyword(n);
        law_node_statement_reads_back(n, f, Seq::empty());
        let g = ensure(f, n.id@, n.text@, n.shape);
        assert(run(t, i, f, Mode::Top) == run(t, i + 1, g, Mode::Top));
        let fa = |n: Node| node_core(n);
        let fb = |e: Edge| edge_core(e);
        let a = ns.map_values(fa);
        let b = es.map_values(fb);
        assert(t.subrange(i + 1, t.len() as int) =~= tail.drop_first());
        assert((a + b).drop_first() =~= a.drop_first() + b);
        assert(a.drop_first() =~= ns.drop_first().map_values(fa));
        assert(t.subrange(i + 1, t.len() as int) =~= ns.drop_first().map_values(|n: Node| node_core(n)) + es.map_values(|e: Edge| edge_core(e)));
        assert(read_nodes(f, ns) == read_nodes(g, ns.drop_first()));
        lemma_run_statements(t, i + 1, g, ns.drop_first(), es);
    } else if es.len() > 0 {
        let e = es[0];
        assert(read_nodes(f, ns) == f);
        assert(tail[0] == edge_core(e));
        assert(t[i] == tail[0]);
        lemma_edge_core_no_keyword(e);
        law_edge_statement_reads_back(e, f, Seq::empty());
        let g = Flow { edges: f.edges.push(edge_tuple(e)), ..f };
        assert(run(t, i, f, Mode::Top) == run(t, i + 1, g, Mode::Top));
        let fa = |n: Node| node_core(n);
        let fb = |e: Edge| edge_core(e);
        let a = ns.map_values(fa);
        let b = es.map_values(fb);
        assert(a.len() == 0);
        assert(a + b =~= b);
        assert(t.subrange(i + 1, t.len() as int) =~= tail.drop_first());
        assert(b.drop_first() =~= es.drop_first().map_values(fb));
        assert(a + es.drop_first().map_values(fb) =~= es.drop_first().map_values(fb));
        assert(t.subrange(i + 1, t.len() as int) =~= ns.map_values(|n: Node| node_core(n)) + es.drop_first().map_values(|e: Edge| edge_core(e)));
        assert(read_nodes(g, ns) == g);
        assert forall|k: int| 0 <= k < es.drop_first().len() implies edge_ok(#[trigger] es.drop_first()[k])
            && has_id(read_nodes(g, ns), es.drop_first()[k].from@) && has_id(read_nodes(g, ns), es.drop_first()[k].to@) by {
            assert(es.drop_first()[k] == es[k + 1]);
            let a = choose|j: int| 0 <= j < f.nodes.len() && (#[trigger] f.nodes[j]).0 == es[k + 1].from@;
            assert(g.nodes[a] == f.nodes[a]);
            let b = choose|j: int| 0 <= j < f.nodes.len() && (#[trigger] f.nodes[j]).0 == es[k + 1].to@;
            assert(g.nodes[b] == f.nodes[b]);
        }
        lemma_run_statements(t, i + 1, g, ns, es.drop_first());
    } else {
        assert(tail.len() == 0);
        assert(i == t.len());
    }
}

proof fn lemma_read_nodes_all(f: Flow, ns: Seq<Node>)
    requires
        forall|k: int| 0 <= k < ns.len() ==> !has_id(f, (#[trigger] ns[k]).id@),
        forall|a: int, b: int| 0 <= a < b < ns.len() ==> (#[trigger] ns[a]).id@ != (#[trigger] ns[b]).id@,
    ensures
        read_nodes(f, ns) == (Flow { nodes: f.nodes + ns.map_values(|n: Node| node_tuple(n)), ..f }),
    decreases ns.len(),
{
    let ft = |n: Node| node_tuple(n);
    if ns.len() == 0 {
        assert(f.nodes + ns.map_values(ft) =~= f.nodes);
    } else {
        let n = ns[0];
        assert(!has_id(f, n.id@));
        let g = ensure(f, n.id@, n.text@, n.shape);
        assert(g == Flow { nodes: f.nodes.push(node_tuple(n)), ..f });
        let rest = ns.drop_first();
        assert forall|k: int| 0 <= k < rest.len() implies !has_id(g, (#[trigger] rest[k]).id@) by {
            assert(rest[k] == ns[k + 1]);
            assert(ns[0].id@ != ns[k + 1].id@);
            if has_id(g, rest[k].id@) {
                let j = choose|j: int| 0 <= j < g.nodes.len() && (#[trigger] g.nodes[j]).0 == rest[k].id@;
                if j < f.nodes.len() {
                    assert(g.nodes[j] == f.nodes[j]);
                }
            }
        }
        assert forall|a: int, b: int| 0 <= a < b < rest.len() implies (#[trigger] rest[a]).id@ != (#[trigger] rest[b]).id@ by {
            assert(rest[a] == ns[a + 1] && rest[b] == ns[b + 1]);
        }
        lemma_read_nodes_all(g, rest);
        assert(f.nodes.push(node_tuple(n)) + rest.map_values(ft) =~= f.nodes + ns.map_values(ft));
    }
}

proof fn lemma_read_edges_all(f: Flow, es: Seq<Edge>)
    ensures
        read_edges(f, es) == (Flow { edges: f.edges + es.map_values(|e: Edge| edge_tuple(e)), ..f }),
    decreases es.len(),
{
    let ft = |e: Edge| edge_tuple(e);
    if es.len() == 0 {
        assert(f.edges + es.map_values(ft) =~= f.edges);
    } else {
        let g = Flow { edges: f.edges.push(edge_tuple(es[0])), ..f };
        lemma_read_edges_all(g, es.drop_first());
        assert(f.edges.push(edge_tuple(es[0])) + es.drop_first().map_values(ft) =~= f.edges + es.map_values(ft));
    }
}

pub proof fn lemma_flat_append<T>(a: Seq<T>, b: Seq<T>, f: spec_fn(T) -> Seq<char>)
    ensures
        flat(a + b, f) == flat(a, f) + flat(b, f),
    decreases b.len(),
{
    if b.len() == 0 {
        assert(a + b =~= a);
        assert(flat(a, f) + Seq::<char>::empty() =~= flat(a, f));
    } else {
        lemma_flat_append(a, b.drop_last(), f);
        assert((a + b).drop_last() =~= a + b.drop_last());
        assert((a + b).last() == b.last());
        assert(flat(a, f) + flat(b.drop_last(), f) + f(b.last()) =~= flat(a, f) + (flat(b.drop_last(), f) + f(b.last())));
    }
}

pub proof fn lemma_flat_map<T>(xs: Seq<T>, f: spec_fn(T) -> Seq<char>, g: spec_fn(T) -> Seq<char>)
    requires
        forall|k: int| 0 <= k < xs.len() ==> f(#[trigger] xs[k]) == g(xs[k]) + "\n"@,
    ensures
        flat(xs, f) == nl_text(xs.map_values(g)),
    decreases xs.len(),
{
    let h = |l: Seq<char>| l + "\n"@;
    if xs.len() > 0 {
        lemma_flat_map(xs.drop_last(), f, g);
        assert(xs.map_values(g).drop_last() =~= xs.drop_last().map_values(g));
        assert(xs.map_values(g).last() == g(xs.last()));
        assert(f(xs.last()) == g(xs.last()) + "\n"@);
    } else {
        assert(xs.map_values(g).len() == 0);
    }
}

/// A flowchart of nodes and edges only, whose ids and texts the reader takes
/// as they stand.
pub open spec fn plain_flowchart(d: Diagram) -> bool {
    &&& d.rankdir@.len() > 0
    &&& one_line(d.rankdir@)
    &&& !is_ws(d.rankdir@.last())
    &&& d.subgraphs@.len() == 0
    &&& d.styles@.len() == 0
    &&& d.class_defs@.len() == 0
    &&& d.class_applies@.len() == 0
    &&& d.link_styles@.len() == 0
    &&& forall|k: int| 0 <= k < d.nodes@.len() ==> bare_id((#[trigger] d.nodes@[k]).id@) && text_ok(d.nodes@[k].text@)
        && d.nodes@[k].id@[0] != '%'
    &&& forall|a: int, b: int| 0 <= a < b < d.nodes@.len() ==> (#[trigger] d.nodes@[a]).id@ != (#[trigger] d.nodes@[b]).id@
    &&& forall|k: int| 0 <= k < d.edges@.len() ==> edge_ok(#[trigger] d.edges@[k])
        && (exists|a: int| 0 <= a < d.nodes@.len() && (#[trigger] d.nodes@[a]).id@ == d.edges@[k].from@)
        && (exists|b: int| 0 <= b < d.nodes@.len() && (#[trigger] d.nodes@[b]).id@ == d.edges@[k].to@)
}

pub open spec fn raw_node(n: Node) -> Seq<char> {
    "    "@ + node_core(n)
}

pub open spec fn raw_edge(e: Edge) -> Seq<char> {
    "    "@ + edge_core(e)
}

proof fn lemma_raw_node(n: Node)
    requires
        bare_id(n.id@),
        text_ok(n.text@),
        n.id@[0] != '%',
    ensures
        one_line(raw_node(n)),
        trim(raw_node(n)) == node_core(n),
        keep_flow(node_core(n)),
        node_line(n) == raw_node(n) + "\n"@,
{
    reveal_strlit("    ");
    reveal_strlit("\n");
    reveal_strlit("%%");
    reveal_strlit("---");
    reveal_strlit("[(");
    reveal_strlit(")]");
    reveal_strlit("[");
    reveal_strlit("]");
    reveal_strlit("{{");
    reveal_strlit("}}");
    reveal_strlit("{");
    reveal_strlit("}");
    reveal_strlit("((");
    reveal_strlit("))");
    reveal_strlit("(");
    reveal_strlit(")");
    lemma_node_line_trim(n);
    let core = node_core(n);
    let id = n.id@;
    let o = shape_open(n.shape);
    let text = n.text@;
    let c = shape_close(n.shape);
    let l = id.len() as int;
    assert(core[0] == id[0]);
    assert(core.last() == c[c.len() - 1]);
    assert(!is_ws(core[0]));
    assert(!is_ws(core.last()));
    lemma_indent_trim(core);
    assert(node_line(n) =~= raw_node(n) + "\n"@);
    let r = raw_node(n);
    assert forall|j: int| 0 <= j < r.len() implies #[trigger] r[j] != '\n' by {
        if j >= 4 {
            let q = j - 4;
            assert(r[j] == core[q]);
            if q < l {
                assert(core[q] == id[q]);
            } else if q < l + o.len() {
                assert(core[q] == o[q - l]);
            } else if q < l + o.len() + text.len() {
                assert(core[q] == text[q - l - o.len()]);
            } else {
                assert(core[q] == c[q - l - o.len() - text.len()]);
            }
        }
    }
    assert(r.last() == core.last());
    assert(!("%%"@.is_prefix_of(core))) by {
        if "%%"@.is_prefix_of(core) {
            assert(core.subrange(0, 2)[0] == core[0]);
        }
    }
    assert(!("---"@.is_prefix_of(core))) by {
        if "---"@.is_prefix_of(core) {
            assert(core.subrange(0, 3)[0] == core[0]);
        }
    }
}

proof fn lemma_raw_edge(e: Edge)
    requires
        edge_ok(e),
        e.from@[0] != '%',
    ensures
        one_line(raw_edge(e)),
        trim(raw_edge(e)) == edge_core(e),
        keep_flow(edge_core(e)),
        edge_line(e) == raw_edge(e) + "\n"@,
{
    reveal_strlit("    ");
    reveal_strlit("\n");
    reveal_strlit(" ");
    reveal_strlit("|");
    reveal_strlit("| ");
    reveal_strlit("%%");
    reveal_strlit("---");
    reveal_strlit("-.->");
    reveal_strlit("-->");
    reveal_strlit("==>");
    lemma_edge_line_trim(e);
    let core = edge_core(e);
    assert(fmt_id(e.from@) == e.from@);
    assert(fmt_id(e.to@) == e.to@);
    assert(core[0] == e.from@[0]);
    assert(core.last() == e.to@.last());
    assert(!is_ws(core[0]));
    assert(!is_ws(core.last()));
    lemma_indent_trim(core);
    assert(edge_line(e) =~= raw_edge(e) + "\n"@);
    let r = raw_edge(e);
    let from = e.from@;
    let a = arrow_text(e.style);
    let mid = edge_mid(e);
    let to = e.to@;
    assert(core =~= from + " "@ + a + mid + to);
    assert forall|j: int| 0 <= j < r.len() implies #[trigger] r[j] != '\n' by {
        if j >= 4 {
            let q = j - 4;
            assert(r[j] == core[q]);
            let l1 = from.len() as int + 1;
            let l2 = l1 + a.len();
            let l3 = l2 + mid.len();
            if q < from.len() {
                assert(core[q] == from[q]);
            } else if q < l1 {
            } else if q < l2 {
                assert(core[q] == a[q - l1]);
            } else if q < l3 {
                assert(core[q] == mid[q - l2]);
                if e.label@.len() > 0 && q - l2 >= 1 && q - l2 < 1 + e.label@.len() {
                    assert(mid[q - l2] == e.label@[q - l2 - 1]);
                }
            } else {
                assert(core[q] == to[q - l3]);
            }
        }
    }
    assert(r.last() == core.last());
    assert(!("%%"@.is_prefix_of(core))) by {
        if "%%"@.is_prefix_of(core) {
            assert(core.subrange(0, 2)[0] == core[0]);
        }
    }
    assert(!("---"@.is_prefix_of(core))) by {
        if "---"@.is_prefix_of(core) {
            assert(core.subrange(0, 3)[0] == core[0]);
        }
    }
}

/// The lines the Mermaid writer prints for a flowchart of nodes and edges.
pub open spec fn raw_lines(d: Diagram) -> Seq<Seq<char>> {
    seq!["graph "@ + d.rankdir@] + d.nodes@.map_values(|n: Node| raw_node(n)) + d.edges@.map_values(|e: Edge| raw_edge(e))
}

/// Those lines trimmed: the statements the reader reads.
pub open spec fn statements(d: Diagram) -> Seq<Seq<char>> {
    seq!["graph "@ + d.rankdir@] + d.nodes@.map_values(|n: Node| node_core(n)) + d.edges@.map_values(|e: Edge| edge_core(e))
}

proof fn lemma_edge_from_ok(d: Diagram, k: int)
    requires
        plain_flowchart(d),
        0 <= k < d.edges@.len(),
    ensures
        d.edges@[k].from@[0] != '%',
{
    let e = d.edges@[k];
    let a = choose|a: int| 0 <= a < d.nodes@.len() && (#[trigger] d.nodes@[a]).id@ == e.from@;
    assert(d.nodes@[a].id@[0] != '%');
}

proof fn lemma_body(d: Diagram)
    requires
        plain_flowchart(d),
    ensures
        mermaid_body(d) == nl_text(raw_lines(d)),
{
    reveal_strlit("graph ");
    reveal_strlit("\n");
    let fnl = |n: Node| node_line(n);
    let frn = |n: Node| raw_node(n);
    let fel = |e: Edge| edge_line(e);
    let fre = |e: Edge| raw_edge(e);
    assert forall|k: int| 0 <= k < d.nodes@.len() implies fnl(#[trigger] d.nodes@[k]) == frn(d.nodes@[k]) + "\n"@ by {
        lemma_raw_node(d.nodes@[k]);
    }
    lemma_flat_map(d.nodes@, fnl, frn);
    assert forall|k: int| 0 <= k < d.edges@.len() implies fel(#[trigger] d.edges@[k]) == fre(d.edges@[k]) + "\n"@ by {
        lemma_edge_from_ok(d, k);
        lemma_raw_edge(d.edges@[k]);
    }
    lemma_flat_map(d.edges@, fel, fre);
    let h = "graph "@ + d.rankdir@;
    let hs = seq![h];
    let ns = d.nodes@.map_values(frn);
    let es = d.edges@.map_values(fre);
    let g = |l: Seq<char>| l + "\n"@;
    lemma_flat_append(hs + ns, es, g);
    lemma_flat_append(hs, ns, g);
    assert(hs.drop_last().len() == 0);
    assert(nl_text(hs) == flat(hs.drop_last(), g) + g(h));
    assert(nl_text(hs) =~= h + "\n"@);
    assert(raw_lines(d) =~= hs + ns + es);
    assert(mermaid_body(d) =~= "graph "@ + d.rankdir@ + "\n"@ + flat(d.nodes@, fnl) + flat(d.edges@, fel));
}

proof fn lemma_line_facts(d: Diagram)
    requires
        plain_flowchart(d),
    ensures
        raw_lines(d).len() == statements(d).len(),
        raw_lines(d).len() > 0,
        forall|i: int| 0 <= i < raw_lines(d).len() ==> one_line(#[trigger] raw_lines(d)[i])
            && trim(raw_lines(d)[i]) == statements(d)[i] && keep_flow(statements(d)[i])
            && raw_lines(d)[i].len() > 0
            && !is_ws(raw_lines(d)[i].last()),
{
    reveal_strlit("graph ");
    reveal_strlit("    ");
    let ls = raw_lines(d);
    let t = statements(d);
    let rd = d.rankdir@;
    let h = "graph "@ + rd;
    let nn = d.nodes@.len() as int;
    assert(ls.len() == t.len());
    assert(ls[0] == h);
    assert(t[0] == h);
    assert(one_line(h)) by {
        assert forall|j: int| 0 <= j < h.len() implies #[trigger] h[j] != '\n' by {
            if j >= 6 {
                assert(h[j] == rd[j - 6]);
            }
        }
        assert(h.last() == rd.last());
    }
    assert(trim(h) == h) by {
        assert(h[0] == 'g');
        assert(h.last() == rd.last());
        lemma_trim_fixed(h);
    }
    assert(keep_flow(h)) by {
        reveal_strlit("%%");
        reveal_strlit("---");
        assert(!("%%"@.is_prefix_of(h))) by {
            if "%%"@.is_prefix_of(h) {
                assert(h.subrange(0, 2)[0] == h[0]);
            }
        }
        assert(!("---"@.is_prefix_of(h))) by {
            if "---"@.is_prefix_of(h) {
                assert(h.subrange(0, 3)[0] == h[0]);
            }
        }
    }
    assert forall|i: int| 0 <= i < ls.len() implies one_line(#[trigger] ls[i]) && trim(ls[i]) == t[i] && keep_flow(t[i])
        && ls[i].len() > 0 && !is_ws(ls[i].last()) by {
        if i == 0 {
            assert(h.last() == rd.last());
        } else if i < 1 + nn {
            let n = d.nodes@[i - 1];
            assert(ls[i] == raw_node(n));
            assert(t[i] == node_core(n));
            lemma_raw_node(n);
            lemma_node_line_trim(n);
            reveal_strlit("]");
            reveal_strlit("}");
            reveal_strlit(")");
            reveal_strlit(")]");
            reveal_strlit("}}");
            reveal_strlit("))");
            let c = shape_close(n.shape);
            assert(raw_node(n).last() == node_core(n).last());
            assert(node_core(n).last() == c[c.len() - 1]);
        } else {
            let k = i - 1 - nn;
            let e = d.edges@[k];
            assert(ls[i] == raw_edge(e));
            assert(t[i] == edge_core(e));
            lemma_edge_from_ok(d, k);
            lemma_raw_edge(e);
            assert(raw_edge(e).last() == edge_core(e).last());
            assert(edge_core(e).last() == e.to@.last());
        }
    }
}

proof fn lemma_written_lines(d: Diagram)
    requires
        plain_flowchart(d),
    ensures
        flow_lines(flowchart_mermaid(d)) == statements(d),
        lines(flowchart_mermaid(d)) == raw_lines(d),
        flowchart_mermaid(d) + "\n"@ == nl_text(raw_lines(d)),
{
    reveal_strlit("graph ");
    reveal_strlit("\n");
    lemma_body(d);
    lemma_line_facts(d);
    let ls = raw_lines(d);
    let t = statements(d);
    let body = mermaid_body(d);
    let g = |l: Seq<char>| l + "\n"@;
    assert(nl_text(ls) == flat(ls.drop_last(), g) + g(ls.last()));
    let text = nl_text(ls.drop_last()) + ls.last();
    assert(body =~= text + "\n"@);
    assert(body[0] == 'g');
    assert(trim_start(body) == body);
    assert(body.drop_last() =~= text);
    assert(trim_end(body) == trim_end(text));
    let last = ls.len() - 1;
    assert(!is_ws(ls[last].last()));
    assert(text.last() == ls.last().last());
    assert(trim_end(text) == text);
    assert(flowchart_mermaid(d) == text);
    assert forall|i: int| 0 <= i < ls.drop_last().len() implies one_line(#[trigger] ls.drop_last()[i]) by {
        assert(ls.drop_last()[i] == ls[i]);
    }
    assert(one_line(ls[last]));
    lemma_lines_of_text(ls.drop_last(), ls.last());
    assert(ls.drop_last().push(ls.last()) =~= ls);
    lemma_kept_all(ls, t);
}

#[verifier::rlimit(40)]
proof fn lemma_read_statements(d: Diagram)
    requires
        plain_flowchart(d),
    ensures
        run(statements(d), 0, empty_flow(), Mode::Top) == flow_of(d),
{
    reveal_strlit("graph ");
    let t = statements(d);
    let fcn = |n: Node| node_core(n);
    let fce = |e: Edge| edge_core(e);
    assert("graph "@.is_prefix_of(t[0])) by {
        assert(t[0].subrange(0, 6) =~= "graph "@);
    }
    assert(run(t, 0, empty_flow(), Mode::Top) == run(t, 1, empty_flow(), Mode::Top));
    assert(t.subrange(1, t.len() as int) =~= d.nodes@.map_values(fcn) + d.edges@.map_values(fce));
    assert forall|k: int| 0 <= k < d.nodes@.len() implies !has_id(empty_flow(), (#[trigger] d.nodes@[k]).id@) by {}
    lemma_read_nodes_all(empty_flow(), d.nodes@);
    let fnodes = read_nodes(empty_flow(), d.nodes@);
    assert(fnodes.nodes =~= d.nodes@.map_values(|n: Node| node_tuple(n)));
    assert forall|k: int| 0 <= k < d.edges@.len() implies edge_ok(#[trigger] d.edges@[k]) && has_id(fnodes, d.edges@[k].from@)
        && has_id(fnodes, d.edges@[k].to@) by {
        let e = d.edges@[k];
        let a = choose|a: int| 0 <= a < d.nodes@.len() && (#[trigger] d.nodes@[a]).id@ == e.from@;
        assert(fnodes.nodes[a].0 == e.from@);
        let b = choose|b: int| 0 <= b < d.nodes@.len() && (#[trigger] d.nodes@[b]).id@ == e.to@;
        assert(fnodes.nodes[b].0 == e.to@);
    }
    assert forall|k: int| 0 <= k < d.nodes@.len() implies bare_id((#[trigger] d.nodes@[k]).id@) && text_ok(d.nodes@[k].text@) by {}
    lemma_run_statements(t, 1, empty_flow(), d.nodes@, d.edges@);
    lemma_read_edges_all(fnodes, d.edges@);
    let r = read_edges(fnodes, d.edges@);
    assert(r.nodes =~= flow_of(d).nodes);
    assert(r.edges =~= flow_of(d).edges);
    assert(r.subgraphs =~= flow_of(d).subgraphs);
    assert(r.styles =~= flow_of(d).styles);
    assert(r.class_defs =~= flow_of(d).class_defs);
    assert(r.class_applies =~= flow_of(d).class_applies);
    assert(r.link_styles =~= flow_of(d).link_styles);
}

/// The Mermaid text that the writer prints for a flowchart of nodes and
/// edges reads back as that flowchart: its nodes (id, text, shape) and edges
/// (ends, label, style) in order, and nothing else, where ids are distinct
/// bare words (no statement keywords, not starting with `%`), texts and
/// labels hold no bracket, parenthesis, brace, quote, bar or line break and
/// no arrow token, and every edge joins two of its nodes.
pub proof fn law_flowchart_mermaid_reads_back(d: Diagram)
    requires
        plain_flowchart(d),
    ensures
        flow_parse(flowchart_mermaid(d)) == flow_of(d),
{
    lemma_written_lines(d);
    lemma_read_statements(d);
}

/// The flowchart reader inverts the arrow text of every edge style: under a
/// `graph TD` header, the line `a <arrow> b` reads as the rectangle nodes `a`
/// and `b` and one unlabelled edge from `a` to `b` of that style, for
/// distinct bare ids.
pub proof fn law_arrow_reads_back(e: Edge)
    requires
        bare_id(e.from@),
        bare_id(e.to@),
        e.from@ != e.to@,
        e.from@[0] != '%',
        e.label@.len() == 0,
    ensures
        flow_parse("graph TD\n    "@ + e.from@ + " "@ + arrow_text(e.style) + " "@ + e.to@) == (Flow {
            nodes: seq![(e.from@, e.from@, NodeShape::Rect), (e.to@, e.to@, NodeShape::Rect)],
            edges: seq![edge_tuple(e)],
            ..empty_flow()
        }),
{
    reveal_strlit("graph TD\n    ");
    reveal_strlit("graph TD");
    reveal_strlit("graph ");
    reveal_strlit("\n");
    reveal_strlit("    ");
    reveal_strlit(" ");
    reveal_strlit("%%");
    reveal_strlit("---");
    assert(text_ok(e.label@));
    assert(edge_ok(e));
    lemma_raw_edge(e);
    let core = edge_core(e);
    assert(edge_mid(e) == " "@);
    let raw = raw_edge(e);
    let h = "graph TD"@;
    let src = "graph TD\n    "@ + e.from@ + " "@ + arrow_text(e.style) + " "@ + e.to@;
    assert(src =~= h + "\n"@ + raw);
    lemma_lines_front(h, raw);
    assert(raw.len() > 0);
    assert forall|j: int| 0 <= j < raw.len() implies #[trigger] raw[j] != '\n' by {
        assert(one_line(raw));
    }
    lemma_lines_last(raw);
    assert(strip_cr(h) == h);
    let ls = seq![h, raw];
    assert(lines(src) =~= ls);
    let t = seq![h, core];
    assert(trim(h) == h) by {
        lemma_trim_fixed(h);
    }
    assert(keep_flow(h)) by {
        assert(!("%%"@.is_prefix_of(h))) by {
            if "%%"@.is_prefix_of(h) {
                assert(h.subrange(0, 2)[0] == h[0]);
            }
        }
        assert(!("---"@.is_prefix_of(h))) by {
            if "---"@.is_prefix_of(h) {
                assert(h.subrange(0, 3)[0] == h[0]);
            }
        }
    }
    lemma_kept_all(ls, t);
    assert(flow_lines(src) == t);
    assert("graph "@.is_prefix_of(h)) by {
        assert(h.subrange(0, 6) =~= "graph "@);
    }
    lemma_edge_core_no_keyword(e);
    law_edge_statement_adds(e, empty_flow(), Seq::empty());
    let g = collect_line(core, empty_flow(), Seq::empty()).0;
    assert(run(t, 0, empty_flow(), Mode::Top) == run(t, 1, empty_flow(), Mode::Top));
    assert(run(t, 1, empty_flow(), Mode::Top) == run(t, 2, g, Mode::Top));
    assert(run(t, 2, g, Mode::Top) == g);
    let g1 = ensure(empty_flow(), e.from@, e.from@, NodeShape::Rect);
    assert(g1.nodes =~= seq![(e.from@, e.from@, NodeShape::Rect)]);
    let g2 = ends_added(empty_flow(), e);
    assert(g2.nodes =~= seq![(e.from@, e.from@, NodeShape::Rect), (e.to@, e.to@, NodeShape::Rect)]);
    assert(g.edges =~= seq![edge_tuple(e)]);
}

// ---------------------------------------------------------------- documents

/// A document entry that is a flowchart of nodes and edges only.
pub open spec fn plain_entry(d: crate::ir::Diagram) -> bool {
    d matches crate::ir::Diagram::Flowchart(f) && plain_flowchart(f)
}

/// The marker line in front of the `i`-th flowchart of a document.
pub open spec fn marker_line(i: nat) -> Seq<char> {
    "%% diagram "@ + decimal(i) + ": "@ + "flowchart"@
}

/// The lines of the first `k` flowcharts of a document, as written.
pub open spec fn doc_lines(ds: Seq<crate::ir::Diagram>, k: nat) -> Seq<Seq<char>>
    decreases k,
{
    if k <= 1 {
        seq![marker_line(0)] + raw_lines(ds[0]->Flowchart_0)
    } else {
        doc_lines(ds, (k - 1) as nat) + seq![Seq::<char>::empty(), marker_line((k - 1) as nat)] + raw_lines(
            ds[k - 1]->Flowchart_0,
        )
    }
}

pub proof fn lemma_nl_append(a: Seq<Seq<char>>, b: Seq<Seq<char>>)
    ensures
        nl_text(a + b) == nl_text(a) + nl_text(b),
{
    lemma_flat_append(a, b, |l: Seq<char>| l + "\n"@);
}

pub proof fn lemma_nl_one(x: Seq<char>)
    ensures
        nl_text(seq![x]) == x + "\n"@,
{
    let s = seq![x];
    assert(s.drop_last().len() == 0);
    assert(flat(s.drop_last(), |l: Seq<char>| l + "\n"@) == Seq::<char>::empty());
    assert(Seq::<char>::empty() + (x + "\n"@) =~= x + "\n"@);
}

proof fn lemma_decimal_digits(n: nat)
    ensures
        decimal(n).len() > 0,
        forall|j: int| 0 <= j < decimal(n).len() ==> '0' <= #[trigger] decimal(n)[j] <= '9',
    decreases n,
{
    if n >= 10 {
        lemma_decimal_digits(n / 10);
    }
}

proof fn lemma_marker_line(i: nat)
    ensures
        one_line(marker_line(i)),
        trim(marker_line(i)) == marker_line(i),
        marker().is_prefix_of(marker_line(i)),
{
    reveal_strlit("%% diagram ");
    reveal_strlit(": ");
    reveal_strlit("flowchart");
    lemma_decimal_digits(i);
    let m = marker_line(i);
    let dd = decimal(i);
    assert forall|j: int| 0 <= j < m.len() implies #[trigger] m[j] != '\n' by {
        if 11 <= j < 11 + dd.len() {
            assert(m[j] == dd[j - 11]);
        }
    }
    assert(m[0] == '%');
    assert(m.last() == 't');
    lemma_trim_fixed(m);
    assert(m.subrange(0, 11) =~= marker());
}

/// A line that trims to a kept flowchart statement is no marker.
proof fn lemma_not_marker(l: Seq<char>)
    requires
        keep_flow(trim(l)),
    ensures
        !marker().is_prefix_of(trim(l)),
{
    reveal_strlit("%% diagram ");
    reveal_strlit("%%");
    let t = trim(l);
    if marker().is_prefix_of(t) {
        assert(t.subrange(0, 2) =~= "%%"@) by {
            assert(t[0] == marker()[0]);
            assert(t[1] == marker()[1]);
        }
    }
}

/// The text written for a flowchart, with the facts the document reader needs.
proof fn lemma_written_text(f: Diagram)
    requires
        plain_flowchart(f),
    ensures
        flowchart_mermaid(f) + "\n"@ == nl_text(raw_lines(f)),
        lines(flowchart_mermaid(f)) == raw_lines(f),
        flowchart_mermaid(f).len() > 0,
        !is_ws(flowchart_mermaid(f)[0]),
        !is_ws(flowchart_mermaid(f).last()),
        raw_lines(f).len() > 0,
        forall|i: int| 0 <= i < raw_lines(f).len() ==> one_line(#[trigger] raw_lines(f)[i])
            && !marker().is_prefix_of(trim(raw_lines(f)[i])) && raw_lines(f)[i].len() > 0,
{
    reveal_strlit("graph ");
    reveal_strlit("\n");
    lemma_written_lines(f);
    lemma_line_facts(f);
    let ls = raw_lines(f);
    let w = flowchart_mermaid(f);
    assert forall|i: int| 0 <= i < ls.len() implies one_line(#[trigger] ls[i]) && !marker().is_prefix_of(trim(ls[i]))
        && ls[i].len() > 0 by {
        lemma_not_marker(ls[i]);
    }
    let g = |l: Seq<char>| l + "\n"@;
    assert(nl_text(ls) == flat(ls.drop_last(), g) + g(ls.last()));
    let x = nl_text(ls.drop_last()) + ls.last();
    assert(w + "\n"@ =~= x + "\n"@);
    assert((w + "\n"@).drop_last() =~= w);
    assert((x + "\n"@).drop_last() =~= x);
    assert(w == x);
    assert(w.last() == ls.last().last());
    assert(ls[0] == "graph "@ + f.rankdir@);
    assert(ls[0][0] == 'g');
    lemma_flat_front(ls, g);
    assert(w + "\n"@ == ls[0] + "\n"@ + nl_text(ls.drop_first()));
    assert((w + "\n"@)[0] == ls[0][0]);
}

/// Trimming drops line breaks after a text that neither starts nor ends
/// with whitespace.
proof fn lemma_trim_breaks(w: Seq<char>)
    requires
        w.len() > 0,
        !is_ws(w[0]),
        !is_ws(w.last()),
    ensures
        trim(w + "\n"@) == w,
        trim(w + "\n"@ + "\n"@) == w,
{
    reveal_strlit("\n");
    let a = w + "\n"@;
    let b = w + "\n"@ + "\n"@;
    assert(trim_start(a) == a);
    assert(trim_start(b) == b);
    assert(a.drop_last() =~= w);
    assert(b.drop_last() =~= a);
    assert(is_ws('\n'));
    assert(trim_end(w) == w);
    assert(trim_end(a) == trim_end(w));
    assert(trim_end(b) == trim_end(a));
}

proof fn lemma_chunk_plain(ps: Seq<Seq<char>>, ms: Seq<Seq<char>>)
    requires
        forall|i: int| 0 <= i < ms.len() ==> !marker().is_prefix_of(trim(#[trigger] ms[i])),
    ensures
        chunk_state(ps + ms) == (chunk_state(ps).0, chunk_state(ps).1 + nl_text(ms)),
    decreases ms.len(),
{
    if ms.len() == 0 {
        assert(ps + ms =~= ps);
        assert(chunk_state(ps).1 + nl_text(ms) =~= chunk_state(ps).1);
    } else {
        lemma_chunk_plain(ps, ms.drop_last());
        assert((ps + ms).drop_last() =~= ps + ms.drop_last());
        assert((ps + ms).last() == ms.last());
        let g = |l: Seq<char>| l + "\n"@;
        assert(nl_text(ms) == flat(ms.drop_last(), g) + g(ms.last()));
        let cur = chunk_state(ps).1;
        assert(cur + nl_text(ms.drop_last()) + ms.last() + "\n"@ =~= cur + nl_text(ms));
    }
}

proof fn lemma_doc_text(ds: Seq<crate::ir::Diagram>, k: nat)
    requires
        1 <= k <= ds.len(),
        forall|i: int| 0 <= i < ds.len() ==> plain_entry(#[trigger] ds[i]),
    ensures
        join(Seq::new(ds.len(), |i: int| chunk_text(ds, i)).take(k as int), "\n\n"@) + "\n"@ == nl_text(doc_lines(ds, k)),
    decreases k,
{
    reveal_strlit("\n\n");
    reveal_strlit("\n");
    let cs = Seq::new(ds.len(), |i: int| chunk_text(ds, i));
    let i = k - 1;
    assert(plain_entry(ds[i]));
    let f = ds[i]->Flowchart_0;
    lemma_written_text(f);
    let m = marker_line(i as nat);
    let w = flowchart_mermaid(f);
    assert(kind_of(ds[i]) == Kind::Flowchart);
    assert(diagram_mermaid(ds[i]) == w);
    assert(cs[i] == m + "\n"@ + w);
    lemma_nl_one(m);
    if k == 1 {
        assert(cs.take(1).len() == 1);
        assert(join(cs.take(1), "\n\n"@) == cs.take(1)[0]);
        lemma_nl_append(seq![m], raw_lines(f));
        assert(doc_lines(ds, k) == seq![m] + raw_lines(f));
        assert(cs[0] + "\n"@ =~= m + "\n"@ + (w + "\n"@));
    } else {
        lemma_doc_text(ds, (k - 1) as nat);
        lemma_join_step(cs, "\n\n"@, i);
        let prev = doc_lines(ds, (k - 1) as nat);
        let e = Seq::<char>::empty();
        lemma_nl_append(prev + seq![e, m], raw_lines(f));
        lemma_nl_append(prev, seq![e, m]);
        assert(seq![e] + seq![m] =~= seq![e, m]);
        lemma_nl_append(seq![e], seq![m]);
        lemma_nl_one(e);
        assert(doc_lines(ds, k) == prev + seq![e, m] + raw_lines(f));
        let jp = join(cs.take(i), "\n\n"@);
        assert(cs.take(i + 1) =~= cs.take(k as int));
        assert(jp + "\n\n"@ + cs[i] + "\n"@ =~= (jp + "\n"@) + (e + "\n"@) + (m + "\n"@) + (w + "\n"@));
    }
}

proof fn lemma_doc_chunks(ds: Seq<crate::ir::Diagram>, k: nat)
    requires
        1 <= k <= ds.len(),
        forall|i: int| 0 <= i < ds.len() ==> plain_entry(#[trigger] ds[i]),
    ensures
        chunk_state(doc_lines(ds, k)) == (Seq::new((k - 1) as nat, |i: int| diagram_mermaid(ds[i])), nl_text(
            raw_lines(ds[k - 1]->Flowchart_0),
        )),
        forall|j: int| 0 <= j < doc_lines(ds, k).len() ==> one_line(#[trigger] doc_lines(ds, k)[j]),
        doc_lines(ds, k).len() > 1,
        doc_lines(ds, k).last() == raw_lines(ds[k - 1]->Flowchart_0).last(),
        doc_lines(ds, k)[0] == marker_line(0),
    decreases k,
{
    reveal_strlit("\n");
    let i = k - 1;
    assert(plain_entry(ds[i]));
    let f = ds[i]->Flowchart_0;
    lemma_written_text(f);
    let r = raw_lines(f);
    let m = marker_line(i as nat);
    lemma_marker_line(i as nat);
    let e = Seq::<char>::empty();
    let ws = Seq::new((k - 1) as nat, |j: int| diagram_mermaid(ds[j]));
    if k == 1 {
        let one = seq![m];
        assert(one.drop_last() =~= Seq::<Seq<char>>::empty());
        assert(chunk_state(Seq::<Seq<char>>::empty()) == (Seq::<Seq<char>>::empty(), e));
        assert(one.last() == m);
        assert(trim(e) == e);
        assert(marker().is_prefix_of(trim(one.last())));
        assert(chunk_state(one) == (Seq::<Seq<char>>::empty(), e));
        lemma_chunk_plain(one, r);
        assert(doc_lines(ds, k) == one + r);
        assert(e + nl_text(r) =~= nl_text(r));
        assert(ws =~= Seq::<Seq<char>>::empty());
        let g = doc_lines(ds, k);
        assert forall|j: int| 0 <= j < g.len() implies one_line(#[trigger] g[j]) by {
            if j > 0 {
                assert(g[j] == r[j - 1]);
            }
        }
    } else {
        lemma_doc_chunks(ds, (k - 1) as nat);
        let prev = doc_lines(ds, (k - 1) as nat);
        let p = i - 1;
        assert(plain_entry(ds[p]));
        let fp = ds[p]->Flowchart_0;
        lemma_written_text(fp);
        let wp = flowchart_mermaid(fp);
        assert(diagram_mermaid(ds[p]) == wp);
        let cs0 = Seq::new((k - 2) as nat, |j: int| diagram_mermaid(ds[j]));
        assert(trim(e) == e);
        lemma_chunk_plain(prev, seq![e]);
        lemma_nl_one(e);
        assert(prev + seq![e] =~= prev.push(e));
        let a = prev.push(e);
        assert(chunk_state(a) == (cs0, nl_text(raw_lines(fp)) + (e + "\n"@)));
        assert(nl_text(raw_lines(fp)) + (e + "\n"@) =~= wp + "\n"@ + "\n"@);
        lemma_trim_breaks(wp);
        let b = a.push(m);
        assert(b.drop_last() =~= a);
        assert(chunk_state(b) == (cs0.push(wp), e));
        lemma_chunk_plain(b, r);
        assert(doc_lines(ds, k) == prev + seq![e, m] + r);
        assert(prev + seq![e, m] + r =~= b + r);
        assert(cs0.push(wp) =~= ws);
        assert(e + nl_text(r) =~= nl_text(r));
        let g = doc_lines(ds, k);
        assert forall|j: int| 0 <= j < g.len() implies one_line(#[trigger] g[j]) by {
            if j < prev.len() {
                assert(g[j] == prev[j]);
            } else if j == prev.len() {
                assert(g[j] == e);
            } else if j == prev.len() + 1 {
                assert(g[j] == m);
            } else {
                assert(g[j] == r[j - prev.len() - 2]);
            }
        }
        assert(g[0] == prev[0]);
    }
}

proof fn lemma_src_marker(src: Seq<char>, m0: Seq<char>, rest: Seq<char>)
    requires
        src + "\n"@ == m0 + "\n"@ + rest,
        marker().is_prefix_of(m0),
    ensures
        find(src, marker()) is Some,
{
    reveal_strlit("\n");
    reveal_strlit("%% diagram ");
    let t = src + "\n"@;
    assert(t.len() == m0.len() + 1 + rest.len());
    assert(src.len() >= 11);
    assert forall|j: int| 0 <= j < 11 implies #[trigger] src[j] == marker()[j] by {
        assert(t[j] == src[j]);
        assert(t[j] == m0[j]);
        assert(m0.subrange(0, 11)[j] == m0[j]);
    }
    assert(src.subrange(0, 11) =~= marker());
    assert(occurs_at(src, marker(), 0));
    lemma_find_from(src, marker(), 0);
}

#[verifier::rlimit(40)]
proof fn lemma_document_chunks(ds: Seq<crate::ir::Diagram>, src: Seq<char>)
    requires
        ds.len() > 0,
        forall|i: int| 0 <= i < ds.len() ==> plain_entry(#[trigger] ds[i]),
        document_mermaid(ds) == Ok::<Seq<char>, Seq<char>>(src),
    ensures
        chunks_of(src) == Seq::new(ds.len(), |i: int| diagram_mermaid(ds[i])),
{
    reveal_strlit("\n");
    let n = ds.len();
    let ws = Seq::new(n, |i: int| diagram_mermaid(ds[i]));
    let e = Seq::<char>::empty();
    let g = |l: Seq<char>| l + "\n"@;
    if n == 1 {
        assert(plain_entry(ds[0]));
        let f = ds[0]->Flowchart_0;
        lemma_written_text(f);
        let w = flowchart_mermaid(f);
        assert(src == w);
        if find(src, marker()) is None {
            assert(chunks_of(src) == seq![src]);
            assert(seq![src] =~= ws);
        } else {
            let r = raw_lines(f);
            lemma_chunk_plain(Seq::<Seq<char>>::empty(), r);
            assert(Seq::<Seq<char>>::empty() + r =~= r);
            assert(chunk_state(Seq::<Seq<char>>::empty()) == (Seq::<Seq<char>>::empty(), e));
            assert(e + nl_text(r) =~= w + "\n"@);
            lemma_trim_breaks(w);
            assert(Seq::<Seq<char>>::empty().push(w) =~= ws);
        }
    } else {
        let cs = Seq::new(n, |i: int| chunk_text(ds, i));
        assert(src == join(cs, "\n\n"@));
        assert(cs.take(n as int) =~= cs);
        lemma_doc_text(ds, n);
        lemma_doc_chunks(ds, n);
        let gl = doc_lines(ds, n);
        assert(nl_text(gl) == flat(gl.drop_last(), g) + g(gl.last()));
        let x = nl_text(gl.drop_last()) + gl.last();
        assert(src + "\n"@ =~= x + "\n"@);
        assert((src + "\n"@).drop_last() =~= src);
        assert((x + "\n"@).drop_last() =~= x);
        assert(src == x);
        let last = n - 1;
        assert(plain_entry(ds[last]));
        let fl = ds[last]->Flowchart_0;
        lemma_written_text(fl);
        assert(gl.last().len() > 0);
        assert forall|j: int| 0 <= j < gl.drop_last().len() implies one_line(#[trigger] gl.drop_last()[j]) by {
            assert(gl.drop_last()[j] == gl[j]);
        }
        assert(one_line(gl[gl.len() - 1]));
        lemma_lines_of_text(gl.drop_last(), gl.last());
        assert(gl.drop_last().push(gl.last()) =~= gl);
        let m0 = marker_line(0);
        lemma_marker_line(0);
        lemma_flat_front(gl, g);
        assert(src + "\n"@ == m0 + "\n"@ + nl_text(gl.drop_first()));
        lemma_src_marker(src, m0, nl_text(gl.drop_first()));
        let wl = flowchart_mermaid(fl);
        assert(diagram_mermaid(ds[last]) == wl);
        assert(nl_text(raw_lines(fl)) == wl + "\n"@);
        lemma_trim_breaks(wl);
        let cs0 = Seq::new((n - 1) as nat, |i: int| diagram_mermaid(ds[i]));
        assert(cs0.push(wl) =~= ws);
    }
}

proof fn lemma_kept_first(ls: Seq<Seq<char>>)
    requires
        ls.len() > 0,
        keep_content(trim(ls[0])),
    ensures
        kept_numbered(ls, |l: Seq<char>| keep_content(l)).len() > 0,
        kept_numbered(ls, |l: Seq<char>| keep_content(l))[0].1 == trim(ls[0]),
    decreases ls.len(),
{
    if ls.len() == 1 {
        assert(ls.drop_last().len() == 0);
        assert(kept_numbered(ls.drop_last(), |l: Seq<char>| keep_content(l)) == Seq::<(int, Seq<char>)>::empty());
        assert(ls.last() == ls[0]);
    } else {
        lemma_kept_first(ls.drop_last());
        assert(ls.drop_last()[0] == ls[0]);
    }
}

proof fn lemma_not_prefix(kw: Seq<char>, t: Seq<char>)
    requires
        kw.len() > 0,
        t.len() > 0,
        kw[0] != t[0],
    ensures
        !kw.is_prefix_of(t),
{
    if kw.is_prefix_of(t) {
        assert(t.subrange(0, kw.len() as int)[0] == t[0]);
    }
}

/// The text written for a flowchart is read by the flowchart reader, as that
/// flowchart.
proof fn lemma_chunk_reads(f: Diagram, c: crate::ir::Diagram)
    requires
        plain_flowchart(f),
    ensures
        mermaid_error(flowchart_mermaid(f)) is None,
        read_as(flowchart_mermaid(f), c) ==> c is Flowchart && flow_of(c->Flowchart_0) == flow_of(f),
{
    reveal_strlit("graph ");
    reveal_strlit("sequenceDiagram");
    reveal_strlit("classDiagram");
    reveal_strlit("gantt");
    reveal_strlit("stateDiagram");
    reveal_strlit("erDiagram");
    reveal_strlit("%%");
    lemma_written_text(f);
    lemma_line_facts(f);
    let w = flowchart_mermaid(f);
    let r = raw_lines(f);
    let t0 = trim(r[0]);
    assert(t0 == statements(f)[0]);
    assert(t0 == "graph "@ + f.rankdir@);
    assert(t0[0] == 'g' && t0[1] == 'r');
    lemma_not_prefix("%%"@, t0);
    assert(keep_content(t0));
    lemma_kept_first(r);
    let ks = kept_numbered(lines(w), |l: Seq<char>| keep_content(l));
    assert(ks[0].1 == t0);
    lemma_not_prefix("sequenceDiagram"@, t0);
    lemma_not_prefix("classDiagram"@, t0);
    lemma_not_prefix("stateDiagram"@, t0);
    lemma_not_prefix("erDiagram"@, t0);
    assert(t0 != "gantt"@) by {
        assert("gantt"@[1] == 'a');
    }
    assert(!first_content_starts(w, "sequenceDiagram"@));
    assert(!first_content_starts(w, "classDiagram"@));
    assert(!first_content_is(w, "gantt"@));
    assert(!first_content_starts(w, "stateDiagram"@));
    assert(!first_content_starts(w, "erDiagram"@));
    law_flowchart_mermaid_reads_back(f);
}

/// A document of flowcharts, each of nodes and edges only as in
/// `law_flowchart_mermaid_reads_back`, written as Mermaid and read back by the
/// document reader, gives back one flowchart per diagram, in order, each with
/// the nodes and edges that were written.
pub proof fn law_document_mermaid_reads_back(
    ds: Seq<crate::ir::Diagram>,
    src: Seq<char>,
    r: Result<Document, IrError>,
)
    requires
        ds.len() > 0,
        forall|i: int| 0 <= i < ds.len() ==> plain_entry(#[trigger] ds[i]),
        document_mermaid(ds) == Ok::<Seq<char>, Seq<char>>(src),
        document_result(src, r),
    ensures
        chunks_of(src) == Seq::new(ds.len(), |i: int| diagram_mermaid(ds[i])),
        r matches Ok(doc) && doc.diagrams@.len() == ds.len() && forall|i: int|
            0 <= i < ds.len() ==> (#[trigger] doc.diagrams@[i]) is Flowchart && flow_of(
                doc.diagrams@[i]->Flowchart_0,
            ) == flow_of(ds[i]->Flowchart_0),
{
    lemma_document_chunks(ds, src);
    let cs = chunks_of(src);
    assert forall|i: int| 0 <= i < cs.len() implies (#[trigger] mermaid_error(cs[i])) is None by {
        assert(plain_entry(ds[i]));
        let f = ds[i]->Flowchart_0;
        assert(cs[i] == flowchart_mermaid(f));
        lemma_chunk_reads(f, ds[i]);
    }
    assert(r is Ok);
    let doc = r->Ok_0;
    assert forall|i: int| 0 <= i < ds.len() implies (#[trigger] doc.diagrams@[i]) is Flowchart && flow_of(
        doc.diagrams@[i]->Flowchart_0,
    ) == flow_of(ds[i]->Flowchart_0) by {
        assert(plain_entry(ds[i]));
        let f = ds[i]->Flowchart_0;
        assert(cs[i] == flowchart_mermaid(f));
        assert(read_as(cs[i], doc.diagrams@[i]));
        lemma_chunk_reads(f, doc.diagrams@[i]);
    }
}

} // verus!
