//! The canonical model: a document of typed diagrams.

use vstd::prelude::*;
use crate::text::{decimal, push_decimal, str_eq, string_from, flat, join, lemma_flat_step, lemma_flat_all};
use crate::diagram::NodeShape;
use crate::sequence::SequenceDiagram;
use crate::class::ClassDiagram;
use crate::gantt::GanttDiagram;
use crate::state::StateDiagram;
use crate::er::ErDiagram;

verus! {

/// Diagram kind (semantics), independent of the text format.
#[derive(Clone, Copy, Debug, PartialEq, Eq, Structural)]
pub enum Kind {
    Flowchart,
    Sequence,
    Class,
    Gantt,
    State,
    Er,
}

pub open spec fn kind_name(k: Kind) -> Seq<char> {
    match k {
        Kind::Flowchart => "flowchart"@,
        Kind::Sequence => "sequence"@,
        Kind::Class => "class"@,
        Kind::Gantt => "gantt"@,
        Kind::State => "state"@,
        Kind::Er => "er"@,
    }
}

impl Kind {
    /// Lower-case name of the kind, as `Display` would print it.
    pub fn as_str(self) -> (r: &'static str)
        ensures
            r@ == kind_name(self),
    {
        match self {
            Kind::Flowchart => "flowchart",
            Kind::Sequence => "sequence",
            Kind::Class => "class",
            Kind::Gantt => "gantt",
            Kind::State => "state",
            Kind::Er => "er",
        }
    }
}

/// A single typed diagram.
#[derive(Clone, Debug)]
pub enum Diagram {
    Flowchart(crate::diagram::Diagram),
    Sequence(SequenceDiagram),
    Class(ClassDiagram),
    Gantt(GanttDiagram),
    State(StateDiagram),
    Er(ErDiagram),
}

pub open spec fn kind_of(d: Diagram) -> Kind {
    match d {
        Diagram::Flowchart(_) => Kind::Flowchart,
        Diagram::Sequence(_) => Kind::Sequence,
        Diagram::Class(_) => Kind::Class,
        Diagram::Gantt(_) => Kind::Gantt,
        Diagram::State(_) => Kind::State,
        Diagram::Er(_) => Kind::Er,
    }
}

/// Mermaid text of a diagram.
pub open spec fn diagram_mermaid(d: Diagram) -> Seq<char> {
    match d {
        Diagram::Flowchart(f) => crate::diagram::flowchart_mermaid(f),
        Diagram::Sequence(s) => crate::sequence::sequence_mermaid(crate::sequence::seq_v(s)),
        Diagram::Class(c) => crate::class::class_mermaid(crate::class::cd_v(c)),
        Diagram::Gantt(g) => crate::gantt::gantt_mermaid(crate::gantt::gantt_v(g)),
        Diagram::State(s) => crate::state::state_mermaid(crate::state::sd_v(s)),
        Diagram::Er(e) => crate::er::er_mermaid(crate::er::er_v(e)),
    }
}

/// What Mermaid output needs: gantt dates whose years fit in 32 bits.
pub open spec fn printable(d: Diagram) -> bool {
    match d {
        Diagram::Gantt(g) => crate::gantt::dates_in_range(g),
        _ => true,
    }
}

impl Diagram {
    pub fn kind(&self) -> (k: Kind)
        ensures
            k == kind_of(*self),
    {
        match self {
            Diagram::Flowchart(_) => Kind::Flowchart,
            Diagram::Sequence(_) => Kind::Sequence,
            Diagram::Class(_) => Kind::Class,
            Diagram::Gantt(_) => Kind::Gantt,
            Diagram::State(_) => Kind::State,
            Diagram::Er(_) => Kind::Er,
        }
    }

    /// Mermaid text of the diagram.
    pub fn to_mermaid(&self) -> (r: String)
        requires
            printable(*self),
        ensures
            r@ == diagram_mermaid(*self),
    {
        match self {
            Diagram::Flowchart(d) => d.to_mermaid(),
            Diagram::Sequence(d) => d.to_mermaid(),
            Diagram::Class(d) => d.to_mermaid(),
            Diagram::Gantt(d) => d.to_mermaid(),
            Diagram::State(d) => d.to_mermaid(),
            Diagram::Er(d) => d.to_mermaid(),
        }
    }
}

/// The version of the model written by this library.
pub const CURRENT_VERSION: u32 = 1;

/// One or more diagrams plus the model's version.
#[derive(Clone, Debug)]
pub struct Document {
    pub version: u32,
    pub diagrams: Vec<Diagram>,
}

#[derive(Clone, Debug)]
pub struct IrError {
    pub message: String,
}

impl IrError {
    pub fn new(message: &str) -> (e: IrError)
        ensures
            e.message@ == message@,
    {
        IrError { message: string_from(message) }
    }
}

/// A multi-diagram file: each diagram after a `%% diagram i: kind` marker.
pub open spec fn chunk_text(ds: Seq<Diagram>, i: int) -> Seq<char> {
    "%% diagram "@ + decimal(i as nat) + ": "@ + kind_name(kind_of(ds[i])) + "\n"@ + diagram_mermaid(ds[i])
}

/// Mermaid text of a document.
pub open spec fn document_mermaid(ds: Seq<Diagram>) -> Result<Seq<char>, Seq<char>> {
    if ds.len() == 0 {
        Err("document has no diagrams"@)
    } else if ds.len() == 1 {
        Ok(diagram_mermaid(ds[0]))
    } else {
        Ok(join(Seq::new(ds.len(), |i: int| chunk_text(ds, i)), "\n\n"@))
    }
}

fn chunk_exec(d: &Diagram, i: usize) -> (r: String)
    requires
        printable(*d),
    ensures
        r@ == "%% diagram "@ + decimal(i as nat) + ": "@ + kind_name(kind_of(*d)) + "\n"@ + diagram_mermaid(*d),
{
    let mut out = string_from("%% diagram ");
    push_decimal(&mut out, i);
    out.append(": ");
    out.append(d.kind().as_str());
    out.append("\n");
    out.append(d.to_mermaid().as_str());
    out
}

impl Document {
    /// A document holding one diagram.
    pub fn single(diagram: Diagram) -> (d: Document)
        ensures
            d.version == CURRENT_VERSION,
            d.diagrams@ == seq![diagram],
    {
        Document { version: CURRENT_VERSION, diagrams: vec![diagram] }
    }

    /// The first diagram, if any.
    pub fn primary(&self) -> (r: Option<&Diagram>)
        ensures
            self.diagrams@.len() == 0 ==> r is None,
            self.diagrams@.len() > 0 ==> r == Some(&self.diagrams@[0]),
    {
        if self.diagrams.len() == 0 {
            None
        } else {
            Some(&self.diagrams[0])
        }
    }

    /// Mermaid text of the document; several diagrams are separated by markers.
    pub fn to_mermaid(&self) -> (r: Result<String, String>)
        requires
            forall|i: int| 0 <= i < self.diagrams@.len() ==> printable(#[trigger] self.diagrams@[i]),
        ensures
            match document_mermaid(self.diagrams@) {
                Ok(t) => r matches Ok(s) && s@ == t,
                Err(m) => r matches Err(s) && s@ == m,
            },
    {
        let n = self.diagrams.len();
        if n == 0 {
            return Err(string_from("document has no diagrams"));
        }
        if n == 1 {
            return Ok(self.diagrams[0].to_mermaid());
        }
        let ghost ds = self.diagrams@;
        let ghost parts = Seq::new(ds.len(), |i: int| chunk_text(ds, i));
        let mut out = String::new();
        let mut i: usize = 0;
        while i < n
            invariant
                i <= n,
                n == ds.len(),
                n > 1,
                ds == self.diagrams@,
                parts == Seq::new(ds.len(), |i: int| chunk_text(ds, i)),
                forall|k: int| 0 <= k < ds.len() ==> printable(#[trigger] ds[k]),
                out@ == join(parts.take(i as int), "\n\n"@),
            decreases n - i,
        {
            let c = chunk_exec(&self.diagrams[i], i);
            proof {
                if i > 0 {
                    crate::text::lemma_join_step(parts, "\n\n"@, i as int);
                } else {
                    assert(parts.take(1) =~= seq![parts[0]]);
                }
            }
            if i > 0 {
                out.append("\n\n");
            }
            out.append(c.as_str());
            i = i + 1;
        }
        assert(parts.take(n as int) =~= parts);
        Ok(out)
    }
}

// ---------------------------------------------------------------- summaries

/// Count of flowchart nodes with a given shape.
pub open spec fn shape_count(nodes: Seq<crate::diagram::Node>, s: NodeShape) -> nat
    decreases nodes.len(),
{
    if nodes.len() == 0 {
        0
    } else {
        shape_count(nodes.drop_last(), s) + if nodes.last().shape == s { 1nat } else { 0nat }
    }
}

pub open spec fn num(n: int) -> Seq<char> {
    decimal(n as nat)
}

/// Summary lines of one diagram.
pub open spec fn summary_lines(d: Diagram) -> Seq<Seq<char>> {
    match d {
        Diagram::Flowchart(fc) => {
            let ns = fc.nodes@;
            seq![
                "Direction: "@ + fc.rankdir@,
                "Nodes: "@ + num(ns.len() as int),
                "  rect:     "@ + num(shape_count(ns, NodeShape::Rect) as int),
                "  diamond:  "@ + num(shape_count(ns, NodeShape::Diamond) as int),
                "  stadium:  "@ + num(shape_count(ns, NodeShape::Stadium) as int),
                "  hexagon:  "@ + num(shape_count(ns, NodeShape::Hexagon) as int),
                "  cylinder: "@ + num(shape_count(ns, NodeShape::Cylinder) as int),
                "  circle:   "@ + num(shape_count(ns, NodeShape::Circle) as int),
                "Edges: "@ + num(fc.edges@.len() as int),
            ]
        },
        Diagram::Sequence(s) => seq![
            "Participants: "@ + num(s.participants@.len() as int),
            "Messages: "@ + num(s.messages@.len() as int),
        ],
        Diagram::Class(c) => seq![
            "Classes: "@ + num(c.classes@.len() as int),
            "Relations: "@ + num(c.relations@.len() as int),
        ],
        Diagram::Gantt(g) => (if g.title@.len() > 0 {
            seq!["Title: "@ + g.title@]
        } else {
            Seq::empty()
        }) + seq!["Tasks: "@ + num(g.tasks@.len() as int)],
        Diagram::State(s) => seq![
            "States: "@ + num(s.states@.len() as int),
            "Transitions: "@ + num(s.transitions@.len() as int),
        ],
        Diagram::Er(e) => seq![
            "Entities: "@ + num(e.entities@.len() as int),
            "Relationships: "@ + num(e.relationships@.len() as int),
        ],
    }
}

/// Lines for each diagram of a multi-diagram document.
pub open spec fn multi_lines(ds: Seq<Diagram>) -> Seq<Seq<char>>
    decreases ds.len(),
{
    if ds.len() == 0 {
        Seq::empty()
    } else {
        multi_lines(ds.drop_last()) + seq!["Diagram "@ + num(ds.len() - 1) + ": "@ + kind_name(kind_of(ds.last()))]
            + summary_lines(ds.last())
    }
}

/// Human-readable summary lines of a document.
pub open spec fn info(path: Seq<char>, version: int, ds: Seq<Diagram>) -> Seq<Seq<char>> {
    let head = seq!["File: "@ + path, "IR version: "@ + num(version), "Diagrams: "@ + num(ds.len() as int)];
    if ds.len() == 0 {
        head
    } else if ds.len() > 1 {
        head + multi_lines(ds)
    } else {
        head + seq!["Kind: "@ + kind_name(kind_of(ds[0]))] + summary_lines(ds[0])
    }
}

fn labeled(label: &str, n: usize) -> (r: String)
    ensures
        r@ == label@ + num(n as int),
{
    let mut s = string_from(label);
    push_decimal(&mut s, n);
    s
}

fn count_shape(nodes: &Vec<crate::diagram::Node>, s: NodeShape) -> (r: usize)
    ensures
        r == shape_count(nodes@, s),
{
    let mut c: usize = 0;
    let mut i: usize = 0;
    while i < nodes.len()
        invariant
            i <= nodes@.len(),
            c == shape_count(nodes@.take(i as int), s),
            c <= i,
        decreases nodes@.len() - i,
    {
        assert(nodes@.take(i + 1).drop_last() =~= nodes@.take(i as int));
        if nodes[i].shape == s {
            c = c + 1;
        }
        i = i + 1;
    }
    assert(nodes@.take(nodes@.len() as int) =~= nodes@);
    c
}

fn summary_exec(d: &Diagram) -> (r: Vec<String>)
    ensures
        crate::text::views(r@) == summary_lines(*d),
{
    match d {
        Diagram::Flowchart(fc) => {
            let mut dir = string_from("Direction: ");
            dir.append(fc.rankdir.as_str());
            let v = vec![
                dir,
                labeled("Nodes: ", fc.nodes.len()),
                labeled("  rect:     ", count_shape(&fc.nodes, NodeShape::Rect)),
                labeled("  diamond:  ", count_shape(&fc.nodes, NodeShape::Diamond)),
                labeled("  stadium:  ", count_shape(&fc.nodes, NodeShape::Stadium)),
                labeled("  hexagon:  ", count_shape(&fc.nodes, NodeShape::Hexagon)),
                labeled("  cylinder: ", count_shape(&fc.nodes, NodeShape::Cylinder)),
                labeled("  circle:   ", count_shape(&fc.nodes, NodeShape::Circle)),
                labeled("Edges: ", fc.edges.len()),
            ];
            assert(crate::text::views(v@) =~= summary_lines(*d));
            v
        },
        Diagram::Sequence(s) => {
            let v = vec![labeled("Participants: ", s.participants.len()), labeled("Messages: ", s.messages.len())];
            assert(crate::text::views(v@) =~= summary_lines(*d));
            v
        },
        Diagram::Class(c) => {
            let v = vec![labeled("Classes: ", c.classes.len()), labeled("Relations: ", c.relations.len())];
            assert(crate::text::views(v@) =~= summary_lines(*d));
            v
        },
        Diagram::Gantt(g) => {
            proof {
                reveal_strlit("");
            }
            if !str_eq(g.title.as_str(), "") {
                assert(g.title@.len() > 0) by {
                    if g.title@.len() == 0 {
                        assert(g.title@ =~= ""@);
                    }
                }
                let mut t = string_from("Title: ");
                t.append(g.title.as_str());
                let v = vec![t, labeled("Tasks: ", g.tasks.len())];
                assert(crate::text::views(v@) =~= summary_lines(*d));
                v
            } else {
                assert(g.title@ =~= ""@);
                let v = vec![labeled("Tasks: ", g.tasks.len())];
                assert(crate::text::views(v@) =~= summary_lines(*d));
                v
            }
        },
        Diagram::State(s) => {
            let v = vec![labeled("States: ", s.states.len()), labeled("Transitions: ", s.transitions.len())];
            assert(crate::text::views(v@) =~= summary_lines(*d));
            v
        },
        Diagram::Er(e) => {
            let v = vec![labeled("Entities: ", e.entities.len()), labeled("Relationships: ", e.relationships.len())];
            assert(crate::text::views(v@) =~= summary_lines(*d));
            v
        },
    }
}

fn append_lines(out: &mut Vec<String>, more: &Vec<String>)
    ensures
        crate::text::views(final(out)@) == crate::text::views(old(out)@) + crate::text::views(more@),
{
    let ghost o = crate::text::views(out@);
    let ghost m = crate::text::views(more@);
    let mut i: usize = 0;
    while i < more.len()
        invariant
            i <= more@.len(),
            m == crate::text::views(more@),
            crate::text::views(out@) == o + m.take(i as int),
        decreases more@.len() - i,
    {
        let ghost ov = crate::text::views(out@);
        out.push(string_from(more[i].as_str()));
        assert(crate::text::views(out@) =~= ov.push(more@[i as int]@));
        assert(m.take(i + 1) =~= m.take(i as int).push(m[i as int]));
        i = i + 1;
    }
    assert(m.take(more@.len() as int) =~= m);
}

/// Human-readable summary lines of a document (for an `info` command).
pub fn info_lines(path: &str, doc: &Document) -> (r: Vec<String>)
    ensures
        crate::text::views(r@) == info(path@, doc.version as int, doc.diagrams@),
{
    let mut lines: Vec<String> = Vec::new();
    let mut f = string_from("File: ");
    f.append(path);
    lines.push(f);
    lines.push(labeled("IR version: ", doc.version as usize));
    lines.push(labeled("Diagrams: ", doc.diagrams.len()));
    let ghost head = crate::text::views(lines@);
    assert(head =~= seq!["File: "@ + path@, "IR version: "@ + num(doc.version as int), "Diagrams: "@ + num(doc.diagrams@.len() as int)]);
    let n = doc.diagrams.len();
    if n == 0 {
        return lines;
    }
    if n > 1 {
        let mut i: usize = 0;
        while i < n
            invariant
                i <= n,
                n == doc.diagrams@.len(),
                crate::text::views(lines@) == head + multi_lines(doc.diagrams@.take(i as int)),
            decreases n - i,
        {
            let ghost t = doc.diagrams@.take(i + 1);
            assert(t.drop_last() =~= doc.diagrams@.take(i as int));
            assert(t.last() == doc.diagrams@[i as int]);
            let ghost before = crate::text::views(lines@);
            let mut h = labeled("Diagram ", i);
            h.append(": ");
            h.append(doc.diagrams[i].kind().as_str());
            let ghost hv = h@;
            lines.push(h);
            assert(crate::text::views(lines@) =~= before.push(hv));
            let sm = summary_exec(&doc.diagrams[i]);
            append_lines(&mut lines, &sm);
            assert(crate::text::views(lines@) =~= before + seq![hv] + summary_lines(doc.diagrams@[i as int]));
            i = i + 1;
        }
        assert(doc.diagrams@.take(n as int) =~= doc.diagrams@);
        return lines;
    }
    let mut k = string_from("Kind: ");
    k.append(doc.diagrams[0].kind().as_str());
    let ghost kv = k@;
    lines.push(k);
    assert(crate::text::views(lines@) =~= head.push(kv));
    let sm = summary_exec(&doc.diagrams[0]);
    append_lines(&mut lines, &sm);
    assert(crate::text::views(lines@) =~= head + seq![kv] + summary_lines(doc.diagrams@[0]));
    lines
}

/// Read Mermaid text into a document.
pub fn from_mermaid(source: &str) -> (r: Result<Document, IrError>)
    ensures
        crate::formats::mermaid::document_result(source@, r),
{
    crate::formats::mermaid::parse_to_document(source)
}

} // verus!
