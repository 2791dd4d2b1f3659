//! What a target format cannot carry of a document: the export-fidelity report.

use vstd::prelude::*;
use crate::diagram::Node;
use crate::formats::{format_of_text, Format, TextFormat};
use crate::ir::{kind_name, kind_of, Diagram, Document};
use crate::text::{decimal, push_decimal, str_eq, string_from};

verus! {

/// One thing a target format loses or treats specially.
#[derive(Clone, Debug)]
pub struct LossWarning {
    pub diagram_index: Option<usize>,
    pub kind: Option<String>,
    pub code: String,
    pub message: String,
    pub count: Option<usize>,
}

/// Export fidelity of a document towards one format.
#[derive(Clone, Debug)]
pub struct LossinessReport {
    pub target_format: String,
    pub export_supported: bool,
    pub lossless: bool,
    pub diagram_count: usize,
    pub warnings: Vec<LossWarning>,
}

/// A warning as plain values.
pub struct WarningV {
    pub diagram_index: Option<int>,
    pub kind: Option<Seq<char>>,
    pub code: Seq<char>,
    pub message: Seq<char>,
    pub count: Option<int>,
}

/// A report as plain values.
pub struct ReportV {
    pub target: Seq<char>,
    pub supported: bool,
    pub lossless: bool,
    pub diagram_count: int,
    pub warnings: Seq<WarningV>,
}

pub open spec fn opt_int(o: Option<usize>) -> Option<int> {
    match o {
        Some(n) => Some(n as int),
        None => None,
    }
}

pub open spec fn warning_v(w: LossWarning) -> WarningV {
    WarningV {
        diagram_index: opt_int(w.diagram_index),
        kind: match w.kind {
            Some(k) => Some(k@),
            None => None,
        },
        code: w.code@,
        message: w.message@,
        count: opt_int(w.count),
    }
}

pub open spec fn warnings_v(ws: Seq<LossWarning>) -> Seq<WarningV> {
    Seq::new(ws.len(), |i: int| warning_v(ws[i]))
}

pub open spec fn report_v(r: LossinessReport) -> ReportV {
    ReportV {
        target: r.target_format@,
        supported: r.export_supported,
        lossless: r.lossless,
        diagram_count: r.diagram_count as int,
        warnings: warnings_v(r.warnings@),
    }
}

/// A document-level warning (no diagram index, no kind).
pub open spec fn doc_warning(code: Seq<char>, message: Seq<char>, count: Option<int>) -> WarningV {
    WarningV { diagram_index: None, kind: None, code, message, count }
}

/// A warning about diagram `i` of kind `k`.
pub open spec fn diagram_warning(i: int, d: Diagram, code: Seq<char>, message: Seq<char>, count: int) -> WarningV {
    WarningV {
        diagram_index: Some(i),
        kind: Some(kind_name(kind_of(d))),
        code,
        message,
        count: Some(count),
    }
}

/// `a + b`, held at `usize::MAX`.
pub open spec fn sat_sum(a: nat, b: nat) -> int {
    if a + b > usize::MAX {
        usize::MAX as int
    } else {
        (a + b) as int
    }
}

fn sat_add(a: usize, b: usize) -> (r: usize)
    ensures
        r == sat_sum(a as nat, b as nat),
{
    match a.checked_add(b) {
        Some(r) => r,
        None => usize::MAX,
    }
}

/// Number of nodes with a hyperlink.
pub open spec fn count_href(ns: Seq<Node>) -> nat
    decreases ns.len(),
{
    if ns.len() == 0 {
        0
    } else {
        count_href(ns.drop_last()) + if ns.last().href is Some { 1nat } else { 0nat }
    }
}

/// Number of nodes with a tooltip.
pub open spec fn count_tooltip(ns: Seq<Node>) -> nat
    decreases ns.len(),
{
    if ns.len() == 0 {
        0
    } else {
        count_tooltip(ns.drop_last()) + if ns.last().tooltip is Some { 1nat } else { 0nat }
    }
}

/// Number of flowcharts.
pub open spec fn count_flowcharts(ds: Seq<Diagram>) -> nat
    decreases ds.len(),
{
    if ds.len() == 0 {
        0
    } else {
        count_flowcharts(ds.drop_last()) + if ds.last() is Flowchart { 1nat } else { 0nat }
    }
}

/// Number of sequence and class diagrams.
pub open spec fn count_puml(ds: Seq<Diagram>) -> nat
    decreases ds.len(),
{
    if ds.len() == 0 {
        0
    } else {
        count_puml(ds.drop_last()) + if ds.last() is Sequence || ds.last() is Class { 1nat } else { 0nat }
    }
}

/// The warnings about one diagram towards a format named `label` in messages;
/// `full` adds the styling that the graph formats drop.
pub open spec fn diagram_warnings(i: int, d: Diagram, label: Seq<char>, full: bool) -> Seq<WarningV> {
    match d {
        Diagram::Flowchart(fc) => {
            let h = count_href(fc.nodes@);
            let t = count_tooltip(fc.nodes@);
            let s = fc.styles@.len();
            let c = sat_sum(fc.class_defs@.len(), fc.class_applies@.len());
            (if h > 0 {
                seq![diagram_warning(i, d, "flowchart.node.href"@,
                    "node hyperlink (href) is not written to "@ + label + " export"@, h as int)]
            } else {
                Seq::empty()
            }) + (if t > 0 {
                seq![diagram_warning(i, d, "flowchart.node.tooltip"@,
                    "node tooltip is not written to "@ + label + " export"@, t as int)]
            } else {
                Seq::empty()
            }) + (if full && s > 0 {
                seq![diagram_warning(i, d, "flowchart.styles"@,
                    "per-node style properties are not written to "@ + label + " export"@, s as int)]
            } else {
                Seq::empty()
            }) + (if full && c > 0 {
                seq![diagram_warning(i, d, "flowchart.class_defs"@,
                    "classDef/class assignments are not written to "@ + label + " export"@, c as int)]
            } else {
                Seq::empty()
            })
        },
        _ => Seq::empty(),
    }
}

/// The per-diagram warnings of the first `n` diagrams, in order.
pub open spec fn all_diagram_warnings(ds: Seq<Diagram>, n: int, label: Seq<char>, full: bool) -> Seq<WarningV>
    decreases n,
{
    if n <= 0 {
        Seq::empty()
    } else {
        all_diagram_warnings(ds, n - 1, label, full) + diagram_warnings(n - 1, ds[n - 1], label, full)
    }
}

/// Whether every warning carries the informational `code`.
pub open spec fn all_code(ws: Seq<WarningV>, code: Seq<char>) -> bool {
    forall|k: int| 0 <= k < ws.len() ==> (#[trigger] ws[k]).code == code
}

pub open spec fn unsupported_report(name: Seq<char>, n: int, message: Seq<char>) -> ReportV {
    ReportV {
        target: name,
        supported: false,
        lossless: false,
        diagram_count: n,
        warnings: seq![doc_warning("format.unsupported_export"@, message, None)],
    }
}

pub open spec fn supported_report(name: Seq<char>, n: int, ws: Seq<WarningV>, info: Seq<char>) -> ReportV {
    ReportV { target: name, supported: true, lossless: all_code(ws, info), diagram_count: n, warnings: ws }
}

/// What a graph format (DOT, D2, draw.io) keeps of a document: flowcharts only.
pub open spec fn graph_report(ds: Seq<Diagram>, name: Seq<char>, label: Seq<char>, blocks: Seq<char>) -> ReportV {
    let f = count_flowcharts(ds);
    let n = ds.len() as int;
    if f == 0 {
        unsupported_report(name, n, label + " export supports flowchart diagrams only"@)
    } else {
        let skipped = n - f;
        let ws = (if skipped > 0 {
            seq![doc_warning("document.non_flowchart_skipped"@,
                "non-flowchart diagrams are omitted from "@ + label + " export"@, Some(skipped))]
        } else {
            Seq::empty()
        }) + (if n > 1 {
            seq![doc_warning("document.multi_diagram_blocks"@, blocks, Some(f as int))]
        } else {
            Seq::empty()
        }) + all_diagram_warnings(ds, n, label, true);
        supported_report(name, n, ws, "document.multi_diagram_blocks"@)
    }
}

/// What PlantUML keeps of a document: sequence and class diagrams.
pub open spec fn plantuml_loss(ds: Seq<Diagram>) -> ReportV {
    let p = count_puml(ds);
    let n = ds.len() as int;
    if p == 0 {
        unsupported_report("plantuml"@, n, "PlantUML export supports sequence and class diagrams only"@)
    } else {
        let skipped = n - p;
        let ws = (if skipped > 0 {
            seq![doc_warning("document.non_puml_skipped"@,
                "flowchart/gantt diagrams are omitted from PlantUML export"@, Some(skipped))]
        } else {
            Seq::empty()
        }) + (if n > 1 {
            seq![doc_warning("document.multi_diagram_blocks"@,
                "multi-diagram export emits separate @startuml blocks with ' diagram N: comments"@, Some(p as int))]
        } else {
            Seq::empty()
        });
        supported_report("plantuml"@, n, ws, "document.multi_diagram_blocks"@)
    }
}

/// What Mermaid keeps of a document: everything but node links and tooltips.
pub open spec fn mermaid_loss(ds: Seq<Diagram>) -> ReportV {
    let n = ds.len() as int;
    let ws = (if n == 0 {
        seq![doc_warning("document.empty"@, "document has no diagrams"@, None)]
    } else {
        Seq::empty()
    }) + (if n > 1 {
        seq![doc_warning("document.multi_diagram_markers"@,
            "multi-diagram export uses %% diagram N: markers (Mermaid convention, not native multi-figure syntax)"@,
            Some(n))]
    } else {
        Seq::empty()
    }) + all_diagram_warnings(ds, n, "Mermaid"@, false);
    supported_report("mermaid"@, n, ws, "document.multi_diagram_markers"@)
}

/// The export-fidelity report of a document towards a format.
pub open spec fn loss_report(ds: Seq<Diagram>, format: Format) -> ReportV {
    match format {
        Format::JsonIr => ReportV {
            target: "json"@,
            supported: true,
            lossless: true,
            diagram_count: ds.len() as int,
            warnings: Seq::empty(),
        },
        Format::Dot => graph_report(ds, "dot"@, "DOT"@,
            "multi-diagram export emits separate digraph blocks with // diagram N: comments"@),
        Format::D2 => graph_report(ds, "d2"@, "D2"@,
            "multi-diagram export emits separate blocks with # diagram N: comments"@),
        Format::DrawIo => graph_report(ds, "drawio"@, "draw.io"@,
            "multi-diagram export emits one page per flowchart"@),
        Format::PlantUml => plantuml_loss(ds),
        Format::Mermaid => mermaid_loss(ds),
    }
}

proof fn lemma_warnings_push(ws: Seq<LossWarning>, w: LossWarning)
    ensures
        warnings_v(ws.push(w)) == warnings_v(ws).push(warning_v(w)),
{
    assert(warnings_v(ws.push(w)) =~= warnings_v(ws).push(warning_v(w)));
}

fn doc_warn(code: &str, message: &str, count: Option<usize>) -> (w: LossWarning)
    ensures
        warning_v(w) == doc_warning(code@, message@, opt_int(count)),
{
    LossWarning {
        diagram_index: None,
        kind: None,
        code: string_from(code),
        message: string_from(message),
        count,
    }
}

fn diagram_warn(i: usize, d: &Diagram, code: &str, message: &str, count: usize) -> (w: LossWarning)
    ensures
        warning_v(w) == diagram_warning(i as int, *d, code@, message@, count as int),
{
    LossWarning {
        diagram_index: Some(i),
        kind: Some(string_from(d.kind().as_str())),
        code: string_from(code),
        message: string_from(message),
        count: Some(count),
    }
}

fn href_count(ns: &Vec<Node>) -> (c: usize)
    ensures
        c == count_href(ns@),
{
    let mut c: usize = 0;
    let mut i: usize = 0;
    while i < ns.len()
        invariant
            i <= ns@.len(),
            c <= i,
            c == count_href(ns@.take(i as int)),
        decreases ns@.len() - i,
    {
        assert(ns@.take(i + 1).drop_last() =~= ns@.take(i as int));
        if ns[i].href.is_some() {
            c = c + 1;
        }
        i = i + 1;
    }
    assert(ns@.take(i as int) =~= ns@);
    c
}

fn tooltip_count(ns: &Vec<Node>) -> (c: usize)
    ensures
        c == count_tooltip(ns@),
{
    let mut c: usize = 0;
    let mut i: usize = 0;
    while i < ns.len()
        invariant
            i <= ns@.len(),
            c <= i,
            c == count_tooltip(ns@.take(i as int)),
        decreases ns@.len() - i,
    {
        assert(ns@.take(i + 1).drop_last() =~= ns@.take(i as int));
        if ns[i].tooltip.is_some() {
            c = c + 1;
        }
        i = i + 1;
    }
    assert(ns@.take(i as int) =~= ns@);
    c
}

fn flowchart_count(ds: &Vec<Diagram>) -> (c: usize)
    ensures
        c == count_flowcharts(ds@),
{
    let mut c: usize = 0;
    let mut i: usize = 0;
    while i < ds.len()
        invariant
            i <= ds@.len(),
            c <= i,
            c == count_flowcharts(ds@.take(i as int)),
        decreases ds@.len() - i,
    {
        assert(ds@.take(i + 1).drop_last() =~= ds@.take(i as int));
        if let Diagram::Flowchart(_) = &ds[i] {
            c = c + 1;
        }
        i = i + 1;
    }
    assert(ds@.take(i as int) =~= ds@);
    c
}

fn puml_count(ds: &Vec<Diagram>) -> (c: usize)
    ensures
        c == count_puml(ds@),
{
    let mut c: usize = 0;
    let mut i: usize = 0;
    while i < ds.len()
        invariant
            i <= ds@.len(),
            c <= i,
            c == count_puml(ds@.take(i as int)),
        decreases ds@.len() - i,
    {
        assert(ds@.take(i + 1).drop_last() =~= ds@.take(i as int));
        match &ds[i] {
            Diagram::Sequence(_) | Diagram::Class(_) => {
                c = c + 1;
            },
            _ => {},
        }
        i = i + 1;
    }
    assert(ds@.take(i as int) =~= ds@);
    c
}

/// `"<prefix>" + label + " export"`.
fn export_msg(prefix: &str, label: &str) -> (r: String)
    ensures
        r@ == prefix@ + label@ + " export"@,
{
    let mut s = string_from(prefix);
    s.append(label);
    s.append(" export");
    s
}

/// Appends the warnings about diagram `i`.
fn push_diagram_warnings(out: &mut Vec<LossWarning>, i: usize, d: &Diagram, label: &str, full: bool)
    ensures
        warnings_v(final(out)@) == warnings_v(old(out)@) + diagram_warnings(i as int, *d, label@, full),
{
    let ghost w0 = warnings_v(out@);
    match d {
        Diagram::Flowchart(fc) => {
            let ghost l = label@;
            let h = href_count(&fc.nodes);
            let t = tooltip_count(&fc.nodes);
            let s = fc.styles.len();
            let c = sat_add(fc.class_defs.len(), fc.class_applies.len());
            let ghost p1: Seq<WarningV> = if h > 0 {
                seq![diagram_warning(i as int, *d, "flowchart.node.href"@,
                    "node hyperlink (href) is not written to "@ + l + " export"@, h as int)]
            } else {
                Seq::empty()
            };
            let ghost p2: Seq<WarningV> = if t > 0 {
                seq![diagram_warning(i as int, *d, "flowchart.node.tooltip"@,
                    "node tooltip is not written to "@ + l + " export"@, t as int)]
            } else {
                Seq::empty()
            };
            let ghost p3: Seq<WarningV> = if full && s > 0 {
                seq![diagram_warning(i as int, *d, "flowchart.styles"@,
                    "per-node style properties are not written to "@ + l + " export"@, s as int)]
            } else {
                Seq::empty()
            };
            let ghost p4: Seq<WarningV> = if full && c > 0 {
                seq![diagram_warning(i as int, *d, "flowchart.class_defs"@,
                    "classDef/class assignments are not written to "@ + l + " export"@, c as int)]
            } else {
                Seq::empty()
            };
            if h > 0 {
                let m = export_msg("node hyperlink (href) is not written to ", label);
                let w = diagram_warn(i, d, "flowchart.node.href", m.as_str(), h);
                proof { lemma_warnings_push(out@, w); }
                out.push(w);
            }
            assert(warnings_v(out@) =~= w0 + p1);
            if t > 0 {
                let m = export_msg("node tooltip is not written to ", label);
                let w = diagram_warn(i, d, "flowchart.node.tooltip", m.as_str(), t);
                proof { lemma_warnings_push(out@, w); }
                out.push(w);
            }
            assert(warnings_v(out@) =~= w0 + p1 + p2);
            if full && s > 0 {
                let m = export_msg("per-node style properties are not written to ", label);
                let w = diagram_warn(i, d, "flowchart.styles", m.as_str(), s);
                proof { lemma_warnings_push(out@, w); }
                out.push(w);
            }
            assert(warnings_v(out@) =~= w0 + p1 + p2 + p3);
            if full && c > 0 {
                let m = export_msg("classDef/class assignments are not written to ", label);
                let w = diagram_warn(i, d, "flowchart.class_defs", m.as_str(), c);
                proof { lemma_warnings_push(out@, w); }
                out.push(w);
            }
            assert(warnings_v(out@) =~= w0 + p1 + p2 + p3 + p4);
            assert(diagram_warnings(i as int, *d, l, full) =~= p1 + p2 + p3 + p4);
        },
        _ => {
            assert(warnings_v(out@) =~= w0 + diagram_warnings(i as int, *d, label@, full));
        },
    }
}


fn unsupported(name: &str, n: usize, message: &str) -> (r: LossinessReport)
    ensures
        report_v(r) == unsupported_report(name@, n as int, message@),
{
    let w = doc_warn("format.unsupported_export", message, None);
    let ghost wv = warning_v(w);
    let mut ws: Vec<LossWarning> = Vec::new();
    proof { lemma_warnings_push(ws@, w); }
    ws.push(w);
    assert(warnings_v(ws@) =~= seq![wv]);
    LossinessReport {
        target_format: string_from(name),
        export_supported: false,
        lossless: false,
        diagram_count: n,
        warnings: ws,
    }
}

fn all_code_exec(ws: &Vec<LossWarning>, code: &str) -> (b: bool)
    ensures
        b == all_code(warnings_v(ws@), code@),
{
    let mut i: usize = 0;
    while i < ws.len()
        invariant
            i <= ws@.len(),
            forall|k: int| 0 <= k < i ==> (#[trigger] warnings_v(ws@)[k]).code == code@,
        decreases ws@.len() - i,
    {
        if !str_eq(ws[i].code.as_str(), code) {
            assert(warnings_v(ws@)[i as int].code != code@);
            return false;
        }
        i = i + 1;
    }
    true
}

fn push_all_diagram_warnings(out: &mut Vec<LossWarning>, ds: &Vec<Diagram>, label: &str, full: bool)
    ensures
        warnings_v(final(out)@) == warnings_v(old(out)@) + all_diagram_warnings(ds@, ds@.len() as int, label@, full),
{
    let ghost w0 = warnings_v(out@);
    let mut i: usize = 0;
    assert(w0 + all_diagram_warnings(ds@, 0, label@, full) =~= w0);
    while i < ds.len()
        invariant
            i <= ds@.len(),
            warnings_v(out@) == w0 + all_diagram_warnings(ds@, i as int, label@, full),
        decreases ds@.len() - i,
    {
        let ghost before = warnings_v(out@);
        push_diagram_warnings(out, i, &ds[i], label, full);
        assert(all_diagram_warnings(ds@, i + 1, label@, full)
            == all_diagram_warnings(ds@, i as int, label@, full) + diagram_warnings(i as int, ds@[i as int], label@, full));
        assert(warnings_v(out@) =~= w0 + all_diagram_warnings(ds@, i + 1, label@, full));
        i = i + 1;
    }
}

/// Report towards a format that keeps flowcharts only.
fn graph_loss(doc: &Document, name: &str, label: &str, blocks: &str) -> (r: LossinessReport)
    ensures
        report_v(r) == graph_report(doc.diagrams@, name@, label@, blocks@),
{
    let ds = &doc.diagrams;
    let n = ds.len();
    let f = flowchart_count(ds);
    if f == 0 {
        let mut m = string_from(label);
        m.append(" export supports flowchart diagrams only");
        return unsupported(name, n, m.as_str());
    }
    let ghost l = label@;
    proof { lemma_count_flowcharts_le(ds@); }
    let skipped = n - f;
    let mut ws: Vec<LossWarning> = Vec::new();
    let ghost p1: Seq<WarningV> = if skipped > 0 {
        seq![doc_warning("document.non_flowchart_skipped"@,
            "non-flowchart diagrams are omitted from "@ + l + " export"@, Some(skipped as int))]
    } else {
        Seq::empty()
    };
    let ghost p2: Seq<WarningV> = if n > 1 {
        seq![doc_warning("document.multi_diagram_blocks"@, blocks@, Some(f as int))]
    } else {
        Seq::empty()
    };
    if skipped > 0 {
        let m = export_msg("non-flowchart diagrams are omitted from ", label);
        let w = doc_warn("document.non_flowchart_skipped", m.as_str(), Some(skipped));
        proof { lemma_warnings_push(ws@, w); }
        ws.push(w);
    }
    assert(warnings_v(ws@) =~= p1);
    if n > 1 {
        let w = doc_warn("document.multi_diagram_blocks", blocks, Some(f));
        proof { lemma_warnings_push(ws@, w); }
        ws.push(w);
    }
    assert(warnings_v(ws@) =~= p1 + p2);
    push_all_diagram_warnings(&mut ws, ds, label, true);
    let lossless = all_code_exec(&ws, "document.multi_diagram_blocks");
    LossinessReport {
        target_format: string_from(name),
        export_supported: true,
        lossless,
        diagram_count: n,
        warnings: ws,
    }
}

proof fn lemma_count_flowcharts_le(ds: Seq<Diagram>)
    ensures
        count_flowcharts(ds) <= ds.len(),
    decreases ds.len(),
{
    if ds.len() > 0 {
        lemma_count_flowcharts_le(ds.drop_last());
    }
}

proof fn lemma_count_puml_le(ds: Seq<Diagram>)
    ensures
        count_puml(ds) <= ds.len(),
    decreases ds.len(),
{
    if ds.len() > 0 {
        lemma_count_puml_le(ds.drop_last());
    }
}

fn plantuml_report(doc: &Document) -> (r: LossinessReport)
    ensures
        report_v(r) == plantuml_loss(doc.diagrams@),
{
    let ds = &doc.diagrams;
    let n = ds.len();
    let p = puml_count(ds);
    if p == 0 {
        return unsupported("plantuml", n, "PlantUML export supports sequence and class diagrams only");
    }
    proof { lemma_count_puml_le(ds@); }
    let skipped = n - p;
    let mut ws: Vec<LossWarning> = Vec::new();
    let ghost p1: Seq<WarningV> = if skipped > 0 {
        seq![doc_warning("document.non_puml_skipped"@,
            "flowchart/gantt diagrams are omitted from PlantUML export"@, Some(skipped as int))]
    } else {
        Seq::empty()
    };
    if skipped > 0 {
        let w = doc_warn("document.non_puml_skipped",
            "flowchart/gantt diagrams are omitted from PlantUML export", Some(skipped));
        proof { lemma_warnings_push(ws@, w); }
        ws.push(w);
    }
    assert(warnings_v(ws@) =~= p1);
    if n > 1 {
        let w = doc_warn("document.multi_diagram_blocks",
            "multi-diagram export emits separate @startuml blocks with ' diagram N: comments", Some(p));
        proof { lemma_warnings_push(ws@, w); }
        ws.push(w);
    }
    assert(warnings_v(ws@) =~= p1 + (if n > 1 {
        seq![doc_warning("document.multi_diagram_blocks"@,
            "multi-diagram export emits separate @startuml blocks with ' diagram N: comments"@, Some(p as int))]
    } else {
        Seq::<WarningV>::empty()
    }));
    let lossless = all_code_exec(&ws, "document.multi_diagram_blocks");
    LossinessReport {
        target_format: string_from("plantuml"),
        export_supported: true,
        lossless,
        diagram_count: n,
        warnings: ws,
    }
}

fn mermaid_report(doc: &Document) -> (r: LossinessReport)
    ensures
        report_v(r) == mermaid_loss(doc.diagrams@),
{
    let ds = &doc.diagrams;
    let n = ds.len();
    let mut ws: Vec<LossWarning> = Vec::new();
    let ghost p1: Seq<WarningV> = if n == 0 {
        seq![doc_warning("document.empty"@, "document has no diagrams"@, None)]
    } else {
        Seq::empty()
    };
    let ghost p2: Seq<WarningV> = if n > 1 {
        seq![doc_warning("document.multi_diagram_markers"@,
            "multi-diagram export uses %% diagram N: markers (Mermaid convention, not native multi-figure syntax)"@,
            Some(n as int))]
    } else {
        Seq::empty()
    };
    if n == 0 {
        let w = doc_warn("document.empty", "document has no diagrams", None);
        proof { lemma_warnings_push(ws@, w); }
        ws.push(w);
    }
    assert(warnings_v(ws@) =~= p1);
    if n > 1 {
        let w = doc_warn("document.multi_diagram_markers",
            "multi-diagram export uses %% diagram N: markers (Mermaid convention, not native multi-figure syntax)",
            Some(n));
        proof { lemma_warnings_push(ws@, w); }
        ws.push(w);
    }
    assert(warnings_v(ws@) =~= p1 + p2);
    push_all_diagram_warnings(&mut ws, ds, "Mermaid", false);
    let lossless = all_code_exec(&ws, "document.multi_diagram_markers");
    LossinessReport {
        target_format: string_from("mermaid"),
        export_supported: true,
        lossless,
        diagram_count: n,
        warnings: ws,
    }
}

/// Export fidelity of a document towards a format.
pub fn report(doc: &Document, format: Format) -> (r: LossinessReport)
    ensures
        report_v(r) == loss_report(doc.diagrams@, format),
{
    match format {
        Format::JsonIr => {
            let ws: Vec<LossWarning> = Vec::new();
            assert(warnings_v(ws@) =~= Seq::<WarningV>::empty());
            LossinessReport {
                target_format: string_from("json"),
                export_supported: true,
                lossless: true,
                diagram_count: doc.diagrams.len(),
                warnings: ws,
            }
        },
        Format::Dot => graph_loss(doc, "dot", "DOT",
            "multi-diagram export emits separate digraph blocks with // diagram N: comments"),
        Format::D2 => graph_loss(doc, "d2", "D2",
            "multi-diagram export emits separate blocks with # diagram N: comments"),
        Format::DrawIo => graph_loss(doc, "drawio", "draw.io",
            "multi-diagram export emits one page per flowchart"),
        Format::PlantUml => plantuml_report(doc),
        Format::Mermaid => mermaid_report(doc),
    }
}


/// Whether a warning code only informs (how several diagrams are laid out).
pub open spec fn informational(code: Seq<char>) -> bool {
    code == "document.multi_diagram_markers"@ || code == "document.multi_diagram_blocks"@
}

/// Number of warnings that report a real loss.
pub open spec fn count_real(ws: Seq<WarningV>) -> nat
    decreases ws.len(),
{
    if ws.len() == 0 {
        0
    } else {
        count_real(ws.drop_last()) + if informational(ws.last().code) { 0nat } else { 1nat }
    }
}

/// The one-line summary printed after an export, if any.
pub open spec fn summary_text(r: ReportV) -> Option<Seq<char>> {
    if !r.supported {
        if r.warnings.len() == 0 {
            None
        } else {
            Some("export blocked: "@ + r.warnings[0].message)
        }
    } else if r.lossless {
        None
    } else {
        let n = count_real(r.warnings);
        if n == 0 {
            None
        } else {
            Some("lossiness: "@ + decimal(n) + " warning(s) \u{2014} run `diagram lossiness` for details"@)
        }
    }
}

/// One-line human summary of a report for the command line.
pub fn summary_line(report: &LossinessReport) -> (r: Option<String>)
    ensures
        match summary_text(report_v(*report)) {
            Some(t) => r matches Some(s) && s@ == t,
            None => r is None,
        },
{
    let ghost wv = warnings_v(report.warnings@);
    if !report.export_supported {
        if report.warnings.len() == 0 {
            return None;
        }
        let mut s = string_from("export blocked: ");
        s.append(report.warnings[0].message.as_str());
        return Some(s);
    }
    if report.lossless {
        return None;
    }
    let mut n: usize = 0;
    let mut i: usize = 0;
    while i < report.warnings.len()
        invariant
            i <= report.warnings@.len(),
            wv == warnings_v(report.warnings@),
            n <= i,
            n == count_real(wv.take(i as int)),
        decreases report.warnings@.len() - i,
    {
        assert(wv.take(i + 1).drop_last() =~= wv.take(i as int));
        let code = report.warnings[i].code.as_str();
        if !(str_eq(code, "document.multi_diagram_markers") || str_eq(code, "document.multi_diagram_blocks")) {
            n = n + 1;
        }
        i = i + 1;
    }
    assert(wv.take(i as int) =~= wv);
    if n == 0 {
        return None;
    }
    let mut s = string_from("lossiness: ");
    push_decimal(&mut s, n);
    s.append(" warning(s) \u{2014} run `diagram lossiness` for details");
    Some(s)
}

// ---------------------------------------------------------------- laws

proof fn lemma_count_flowcharts(ds: Seq<Diagram>)
    ensures
        crate::formats::dot::dot_blocks(ds, true).len() == count_flowcharts(ds),
        crate::formats::dot::dot_blocks(ds, false).len() == count_flowcharts(ds),
        crate::formats::d2::d2_blocks(ds, true).len() == count_flowcharts(ds),
        crate::formats::d2::d2_blocks(ds, false).len() == count_flowcharts(ds),
        count_flowcharts(ds) > 0 <==> exists|i: int| 0 <= i < ds.len() && (#[trigger] ds[i] is Flowchart),
    decreases ds.len(),
{
    if ds.len() > 0 {
        let p = ds.drop_last();
        lemma_count_flowcharts(p);
        if count_flowcharts(ds) > 0 {
            if ds.last() is Flowchart {
                assert(ds[ds.len() - 1] is Flowchart);
            } else {
                let i = choose|i: int| 0 <= i < p.len() && (#[trigger] p[i] is Flowchart);
                assert(ds[i] == p[i]);
            }
        }
        if exists|i: int| 0 <= i < ds.len() && (#[trigger] ds[i] is Flowchart) {
            let i = choose|i: int| 0 <= i < ds.len() && (#[trigger] ds[i] is Flowchart);
            if i < ds.len() - 1 {
                assert(p[i] == ds[i]);
            }
        }
    }
}

/// For DOT, D2 and draw.io, and for Mermaid on a document that holds a
/// diagram, the lossiness report calls the format supported exactly when
/// exporting the document to it succeeds.
pub proof fn law_supported_iff_export_ok(ds: Seq<Diagram>, format: TextFormat)
    requires
        format == TextFormat::Dot || format == TextFormat::D2 || format == TextFormat::DrawIo
            || (format == TextFormat::Mermaid && ds.len() > 0),
    ensures
        loss_report(ds, format_of_text(format)).supported <==> crate::formats::export_text(ds, format) is Ok,
{
    lemma_count_flowcharts(ds);
    if format == TextFormat::DrawIo {
        if count_flowcharts(ds) > 0 {
            let i = choose|i: int| 0 <= i < ds.len() && (#[trigger] ds[i] is Flowchart);
            assert(!(forall|i: int| 0 <= i < ds.len() ==> !(#[trigger] ds[i] is Flowchart)));
        }
    }
}

/// No warning of a report says that the format cannot take the document.
pub open spec fn no_unsupported_warning(r: ReportV) -> bool {
    forall|k: int| 0 <= k < r.warnings.len() ==> (#[trigger] r.warnings[k]).code != "format.unsupported_export"@
}

proof fn lemma_diagram_warning_codes(i: int, d: Diagram, label: Seq<char>, full: bool)
    ensures
        forall|k: int| 0 <= k < diagram_warnings(i, d, label, full).len()
            ==> (#[trigger] diagram_warnings(i, d, label, full)[k]).code.len() > 1
            && diagram_warnings(i, d, label, full)[k].code[1] == 'l',
{
    reveal_strlit("flowchart.node.href");
    reveal_strlit("flowchart.node.tooltip");
    reveal_strlit("flowchart.styles");
    reveal_strlit("flowchart.class_defs");
}

proof fn lemma_all_diagram_warning_codes(ds: Seq<Diagram>, n: int, label: Seq<char>, full: bool)
    ensures
        forall|k: int| 0 <= k < all_diagram_warnings(ds, n, label, full).len()
            ==> (#[trigger] all_diagram_warnings(ds, n, label, full)[k]).code.len() > 1
            && all_diagram_warnings(ds, n, label, full)[k].code[1] == 'l',
    decreases n,
{
    if n > 0 {
        lemma_all_diagram_warning_codes(ds, n - 1, label, full);
        lemma_diagram_warning_codes(n - 1, ds[n - 1], label, full);
        let a = all_diagram_warnings(ds, n - 1, label, full);
        let b = diagram_warnings(n - 1, ds[n - 1], label, full);
        assert forall|k: int| 0 <= k < (a + b).len() implies (#[trigger] (a + b)[k]).code.len() > 1
            && (a + b)[k].code[1] == 'l' by {
            if k < a.len() {
                assert((a + b)[k] == a[k]);
            } else {
                assert((a + b)[k] == b[k - a.len()]);
            }
        }
    }
}

/// A report that calls its format supported carries no warning that the
/// format cannot take the document.
pub proof fn lemma_supported_no_unsupported_warning(ds: Seq<Diagram>, format: Format)
    requires
        loss_report(ds, format).supported,
    ensures
        no_unsupported_warning(loss_report(ds, format)),
{
    reveal_strlit("format.unsupported_export");
    reveal_strlit("document.non_flowchart_skipped");
    reveal_strlit("document.multi_diagram_blocks");
    reveal_strlit("document.non_puml_skipped");
    reveal_strlit("document.empty");
    reveal_strlit("document.multi_diagram_markers");
    let n = ds.len() as int;
    let fu = "format.unsupported_export"@;
    assert(fu[0] == 'f' && fu[1] == 'o');
    match format {
        Format::JsonIr => {},
        Format::PlantUml => {},
        Format::Mermaid => {
            lemma_all_diagram_warning_codes(ds, n, "Mermaid"@, false);
            let r = loss_report(ds, format);
            let x = (if n == 0 {
                seq![doc_warning("document.empty"@, "document has no diagrams"@, None)]
            } else {
                Seq::empty()
            }) + (if n > 1 {
                seq![doc_warning("document.multi_diagram_markers"@,
                    "multi-diagram export uses %% diagram N: markers (Mermaid convention, not native multi-figure syntax)"@,
                    Some(n))]
            } else {
                Seq::empty()
            });
            let y = all_diagram_warnings(ds, n, "Mermaid"@, false);
            assert(r.warnings == x + y);
            assert forall|k: int| 0 <= k < r.warnings.len() implies (#[trigger] r.warnings[k]).code != fu by {
                if k < x.len() {
                    assert(r.warnings[k] == x[k]);
                    assert(x[k].code[0] == 'd');
                } else {
                    assert(r.warnings[k] == y[k - x.len()]);
                }
            }
        },
        _ => {
            let (label, blocks) = match format {
                Format::Dot => ("DOT"@, "multi-diagram export emits separate digraph blocks with // diagram N: comments"@),
                Format::D2 => ("D2"@, "multi-diagram export emits separate blocks with # diagram N: comments"@),
                _ => ("draw.io"@, "multi-diagram export emits one page per flowchart"@),
            };
            lemma_all_diagram_warning_codes(ds, n, label, true);
            let f = count_flowcharts(ds);
            let skipped = n - f;
            let x = (if skipped > 0 {
                seq![doc_warning("document.non_flowchart_skipped"@,
                    "non-flowchart diagrams are omitted from "@ + label + " export"@, Some(skipped))]
            } else {
                Seq::empty()
            }) + (if n > 1 {
                seq![doc_warning("document.multi_diagram_blocks"@, blocks, Some(f as int))]
            } else {
                Seq::empty()
            });
            let y = all_diagram_warnings(ds, n, label, true);
            let r = loss_report(ds, format);
            assert(r.warnings == x + y);
            assert forall|k: int| 0 <= k < r.warnings.len() implies (#[trigger] r.warnings[k]).code != fu by {
                if k < x.len() {
                    assert(r.warnings[k] == x[k]);
                    assert(x[k].code[0] == 'd');
                } else {
                    assert(r.warnings[k] == y[k - x.len()]);
                }
            }
        },
    }
}

/// Where exporting a document to a text format succeeds, the lossiness
/// report calls that format supported and carries no warning that it cannot
/// take the document; for PlantUML, on documents that hold a sequence or
/// class diagram.
pub proof fn law_export_ok_is_supported(ds: Seq<Diagram>, format: TextFormat)
    requires
        format == TextFormat::PlantUml ==> count_puml(ds) > 0,
    ensures
        crate::formats::export_text(ds, format) is Ok ==> loss_report(ds, format_of_text(format)).supported
            && no_unsupported_warning(loss_report(ds, format_of_text(format))),
{
    if crate::formats::export_text(ds, format) is Ok {
        if format != TextFormat::PlantUml && format != TextFormat::Mermaid {
            law_supported_iff_export_ok(ds, format);
        }
        lemma_supported_no_unsupported_warning(ds, format_of_text(format));
    }
}

} // verus!
