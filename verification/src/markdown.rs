//! Markdown: fenced diagram blocks, and rewriting them into image links.

use vstd::prelude::*;
use crate::formats::{detect_format, Format};
use crate::text::{
    chars_of, lines, lines_of, lowercase, push_decimal, seqs, slice_to_vec, starts_with, str_eq, string_from,
    string_of, strip_prefix, strip_prefix_exec, to_lowercase, trim, trim_slice, trim_start, trim_start_index,
    decimal, join, join_strings, views,
};

verus! {

/// A fenced code block: its opening and closing lines (0-based), info string
/// and body.
#[derive(Clone, Debug)]
pub struct FencedBlock {
    pub start_line: usize,
    pub end_line: usize,
    pub lang: String,
    pub content: String,
}

/// Image format of rendered blocks.
#[derive(Clone, Copy, Debug, PartialEq, Eq, Structural)]
pub enum ImageFormat {
    Png,
    Svg,
}

pub open spec fn image_format_word(w: Seq<char>) -> Option<ImageFormat> {
    if w == "png"@ {
        Some(ImageFormat::Png)
    } else if w == "svg"@ {
        Some(ImageFormat::Svg)
    } else {
        None
    }
}

pub open spec fn image_extension(f: ImageFormat) -> Seq<char> {
    match f {
        ImageFormat::Png => "png"@,
        ImageFormat::Svg => "svg"@,
    }
}

impl ImageFormat {
    /// An image format by name, case-insensitively.
    pub fn parse(s: &str) -> (r: Option<ImageFormat>)
        ensures
            r == image_format_word(lowercase(s@)),
    {
        let l = to_lowercase(s);
        if str_eq(l.as_str(), "png") {
            Some(ImageFormat::Png)
        } else if str_eq(l.as_str(), "svg") {
            Some(ImageFormat::Svg)
        } else {
            None
        }
    }

    pub fn extension(self) -> (r: &'static str)
        ensures
            r@ == image_extension(self),
    {
        match self {
            ImageFormat::Png => "png",
            ImageFormat::Svg => "svg",
        }
    }
}

pub type BlockV = (int, int, Seq<char>, Seq<char>);

pub open spec fn block_v(b: FencedBlock) -> BlockV {
    (b.start_line as int, b.end_line as int, b.lang@, b.content@)
}

pub open spec fn blocks_v(bs: Seq<FencedBlock>) -> Seq<BlockV> {
    Seq::new(bs.len(), |k: int| block_v(bs[k]))
}

/// A line that opens or closes a fence.
pub open spec fn is_fence(l: Seq<char>) -> bool {
    "```"@.is_prefix_of(trim(l))
}

/// First fence line at or after `j` (or the number of lines).
pub open spec fn close_at(ls: Seq<Seq<char>>, j: int) -> int
    decreases ls.len() - j,
{
    if j < 0 || j >= ls.len() || is_fence(ls[j]) {
        j
    } else {
        close_at(ls, j + 1)
    }
}

/// Body of lines `a..b`: joined by newlines, leading empty lines dropped.
pub open spec fn fence_body(ls: Seq<Seq<char>>, a: int, b: int) -> Seq<char>
    decreases b - a,
{
    if b <= a {
        Seq::empty()
    } else {
        let acc = fence_body(ls, a, b - 1);
        if acc.len() == 0 {
            ls[b - 1]
        } else {
            acc + "\n"@ + ls[b - 1]
        }
    }
}

pub proof fn lemma_close_at(ls: Seq<Seq<char>>, j: int)
    requires
        0 <= j <= ls.len(),
    ensures
        j <= close_at(ls, j) <= ls.len(),
    decreases ls.len() - j,
{
    if j < ls.len() && !is_fence(ls[j]) {
        lemma_close_at(ls, j + 1);
    }
}

/// Closed fenced blocks from line `i` on.
pub open spec fn fences_from(ls: Seq<Seq<char>>, i: int) -> Seq<BlockV>
    decreases ls.len() - i,
{
    if i < 0 || i >= ls.len() {
        Seq::empty()
    } else {
        match strip_prefix(trim(ls[i]), "```"@) {
            None => fences_from(ls, i + 1),
            Some(lang) => {
                let j = close_at(ls, i + 1);
                proof { lemma_close_at(ls, i + 1); }
                if j < ls.len() {
                    seq![(i, j, trim(lang), fence_body(ls, i + 1, j))] + fences_from(ls, j + 1)
                } else {
                    Seq::empty()
                }
            },
        }
    }
}

/// The closed fenced code blocks of a Markdown text, in order.
pub open spec fn fenced_blocks(src: Seq<char>) -> Seq<BlockV> {
    fences_from(lines(src), 0)
}

/// Extract the fenced code blocks of a Markdown text (line numbers 0-based).
pub fn extract_fenced_blocks(source: &str) -> (r: Vec<FencedBlock>)
    ensures
        blocks_v(r@) == fenced_blocks(source@),
{
    let cs = chars_of(source);
    let ls = lines_of(cs.as_slice());
    let ghost lv = seqs(ls@);
    let fence = chars_of("```");
    let n = ls.len();
    let mut r: Vec<FencedBlock> = Vec::new();
    let mut i: usize = 0;
    assert(blocks_v(r@) + fences_from(lv, 0) =~= fences_from(lv, 0));
    while i < n
        invariant
            n == ls@.len(),
            i <= n,
            lv == seqs(ls@),
            lv == lines(source@),
            fence@ == "```"@,
            blocks_v(r@) + fences_from(lv, i as int) == fences_from(lv, 0),
        decreases n - i,
    {
        assert(lv[i as int] == ls@[i as int]@);
        let line = trim_slice(ls[i].as_slice());
        match strip_prefix_exec(line, "```") {
            None => {
                i = i + 1;
            },
            Some(lang) => {
                let mut j = i + 1;
                proof { lemma_close_at(lv, i + 1); }
                while j < n && !starts_with(trim_slice(ls[j].as_slice()), fence.as_slice())
                    invariant
                        i < j <= n,
                        n == ls@.len(),
                        lv == seqs(ls@),
                        fence@ == "```"@,
                        close_at(lv, i + 1) == close_at(lv, j as int),
                    decreases n - j,
                {
                    assert(lv[j as int] == ls@[j as int]@);
                    j = j + 1;
                }
                proof {
                    if j < n {
                        assert(lv[j as int] == ls@[j as int]@);
                    }
                }
                if j < n {
                    let mut content = String::new();
                    let mut k = i + 1;
                    while k < j
                        invariant
                            i < k <= j < n,
                            n == ls@.len(),
                            lv == seqs(ls@),
                            content@ == fence_body(lv, i + 1, k as int),
                        decreases j - k,
                    {
                        assert(lv[k as int] == ls@[k as int]@);
                        let empty = chars_of(content.as_str()).len() == 0;
                        if !empty {
                            content.append("\n");
                        }
                        crate::text::push_chars(&mut content, ls[k].as_slice());
                        k = k + 1;
                    }
                    let b = FencedBlock {
                        start_line: i,
                        end_line: j,
                        lang: string_of(trim_slice(lang.as_slice())),
                        content,
                    };
                    let ghost before = blocks_v(r@);
                    r.push(b);
                    assert(blocks_v(r@) =~= before.push(block_v(b)));
                    assert(blocks_v(r@) + fences_from(lv, j + 1) =~= before + fences_from(lv, i as int));
                    i = j + 1;
                } else {
                    assert(blocks_v(r@) + fences_from(lv, i as int) =~= blocks_v(r@));
                    assert(blocks_v(r@) + fences_from(lv, n as int) =~= blocks_v(r@));
                    i = n;
                }
            },
        }
    }
    assert(blocks_v(r@) + fences_from(lv, n as int) =~= blocks_v(r@));
    r
}

/// Info strings that name a diagram language.
pub open spec fn diagram_lang(l: Seq<char>) -> bool {
    l == "mermaid"@ || l == "mmd"@ || l == "plantuml"@ || l == "puml"@ || l == "dot"@ || l == "graphviz"@ || l == "gv"@
}

/// An unlabelled block whose text reads as a diagram.
pub open spec fn unlabeled_diagram(content: Seq<char>) -> bool {
    let t = trim_start(content);
    if "{"@.is_prefix_of(t) {
        false
    } else if crate::formats::plantuml::plantuml_like(content) || crate::formats::dot::dot_like(content) {
        true
    } else {
        crate::sequence::first_content_starts(content, "sequenceDiagram"@)
            || crate::sequence::first_content_starts(content, "classDiagram"@)
            || crate::gantt::first_content_is(content, "gantt"@) || "graph "@.is_prefix_of(t)
            || "flowchart "@.is_prefix_of(t)
    }
}

pub open spec fn diagram_block(b: BlockV) -> bool {
    if b.2.len() > 0 {
        diagram_lang(lowercase(b.2))
    } else {
        unlabeled_diagram(b.3)
    }
}

/// Whether a fenced block holds a diagram (by its info string, or its text when unlabelled).
pub fn is_diagram_block(block: &FencedBlock) -> (b: bool)
    ensures
        b == diagram_block(block_v(*block)),
{
    let lang = chars_of(block.lang.as_str());
    if lang.len() > 0 {
        let l = to_lowercase(block.lang.as_str());
        let w = l.as_str();
        return str_eq(w, "mermaid") || str_eq(w, "mmd") || str_eq(w, "plantuml") || str_eq(w, "puml")
            || str_eq(w, "dot") || str_eq(w, "graphviz") || str_eq(w, "gv");
    }
    let c = block.content.as_str();
    let cs = chars_of(c);
    let k = trim_start_index(cs.as_slice());
    let t = &cs.as_slice()[k..cs.len()];
    assert(t@ == trim_start(c@));
    if starts_with(t, chars_of("{").as_slice()) {
        return false;
    }
    if crate::formats::plantuml::is_plantuml(c) || crate::formats::dot::is_dot(c) {
        return true;
    }
    crate::sequence::is_sequence(c) || crate::class::is_class(c) || crate::gantt::is_gantt(c)
        || starts_with(t, chars_of("graph ").as_slice()) || starts_with(t, chars_of("flowchart ").as_slice())
}

/// The format of a block: from its info string, else detected from its text.
pub open spec fn block_format(lang: Seq<char>, content: Seq<char>) -> Format {
    let l = lowercase(lang);
    if l == "mermaid"@ || l == "mmd"@ {
        Format::Mermaid
    } else if l == "plantuml"@ || l == "puml"@ {
        Format::PlantUml
    } else if l == "dot"@ || l == "graphviz"@ || l == "gv"@ {
        Format::Dot
    } else {
        detect_format(content, None)
    }
}

/// The format to read a block in.
pub fn lang_to_format(lang: &str, content: &str) -> (r: Format)
    ensures
        r == block_format(lang@, content@),
{
    let l = to_lowercase(lang);
    let w = l.as_str();
    if str_eq(w, "mermaid") || str_eq(w, "mmd") {
        Format::Mermaid
    } else if str_eq(w, "plantuml") || str_eq(w, "puml") {
        Format::PlantUml
    } else if str_eq(w, "dot") || str_eq(w, "graphviz") || str_eq(w, "gv") {
        Format::Dot
    } else {
        crate::formats::detect(content, None)
    }
}

/// `<prefix>-<index>.<ext>`: the file name of a rendered block.
pub fn image_file_name(prefix: &str, index: usize, format: ImageFormat) -> (r: String)
    ensures
        r@ == prefix@ + "-"@ + decimal(index as nat) + "."@ + image_extension(format),
{
    let mut s = string_from(prefix);
    s.append("-");
    push_decimal(&mut s, index);
    s.append(".");
    s.append(format.extension());
    s
}

/// `![diagram <index>](<link>)`: the line that replaces a rendered block.
pub fn image_link(index: usize, link: &str) -> (r: String)
    ensures
        r@ == "![diagram "@ + decimal(index as nat) + "]("@ + link@ + ")"@,
{
    let mut s = string_from("![diagram ");
    push_decimal(&mut s, index);
    s.append("](");
    s.append(link);
    s.append(")");
    s
}

/// Lines `from..` of `ls` with block `k..` (ordered, disjoint line ranges)
/// each replaced by its replacement line.
pub open spec fn replaced_from(ls: Seq<Seq<char>>, from: int, bs: Seq<(int, int)>, reps: Seq<Seq<char>>, k: int) -> Seq<Seq<char>>
    decreases ls.len() - from, bs.len() - k,
{
    if from < 0 || from > ls.len() {
        Seq::empty()
    } else if k < 0 || k >= bs.len() {
        ls.subrange(from, ls.len() as int)
    } else if bs[k].0 < from || bs[k].1 < bs[k].0 || bs[k].1 >= ls.len() {
        ls.subrange(from, ls.len() as int)
    } else {
        ls.subrange(from, bs[k].0) + seq![reps[k]] + replaced_from(ls, bs[k].1 + 1, bs, reps, k + 1)
    }
}

pub open spec fn ranges_v(bs: Seq<FencedBlock>) -> Seq<(int, int)> {
    Seq::new(bs.len(), |k: int| (bs[k].start_line as int, bs[k].end_line as int))
}

fn push_lines(out: &mut Vec<String>, ls: &Vec<Vec<char>>, a: usize, b: usize)
    requires
        a <= b <= ls@.len(),
    ensures
        views(final(out)@) == views(old(out)@) + seqs(ls@).subrange(a as int, b as int),
{
    let ghost o0 = views(out@);
    let mut j = a;
    while j < b
        invariant
            a <= j <= b <= ls@.len(),
            views(out@) == o0 + seqs(ls@).subrange(a as int, j as int),
        decreases b - j,
    {
        let ghost before = views(out@);
        out.push(string_of(ls[j].as_slice()));
        assert(views(out@) =~= before.push(ls@[j as int]@));
        assert(seqs(ls@).subrange(a as int, j + 1) =~= seqs(ls@).subrange(a as int, j as int).push(ls@[j as int]@));
        j = j + 1;
    }
}

/// The Markdown text with each block (in line order, not overlapping) replaced
/// by its image line; lines are joined by `\n`.
pub fn replace_blocks(source: &str, blocks: &Vec<FencedBlock>, replacements: &Vec<String>) -> (r: String)
    requires
        replacements@.len() == blocks@.len(),
    ensures
        r@ == join(replaced_from(lines(source@), 0, ranges_v(blocks@), views(replacements@), 0), "\n"@),
{
    let cs = chars_of(source);
    let ls = lines_of(cs.as_slice());
    let ghost lv = seqs(ls@);
    let ghost bv = ranges_v(blocks@);
    let ghost rv = views(replacements@);
    let n = ls.len();
    let mut out: Vec<String> = Vec::new();
    let mut from: usize = 0;
    let mut k: usize = 0;
    let mut stop = false;
    assert(views(out@) + replaced_from(lv, 0, bv, rv, 0) =~= replaced_from(lv, 0, bv, rv, 0));
    while !stop && k < blocks.len()
        invariant
            n == ls@.len(),
            lv == seqs(ls@),
            lv == lines(source@),
            bv == ranges_v(blocks@),
            rv == views(replacements@),
            replacements@.len() == blocks@.len(),
            from <= n,
            k <= blocks@.len(),
            !stop ==> views(out@) + replaced_from(lv, from as int, bv, rv, k as int) == replaced_from(lv, 0, bv, rv, 0),
            stop ==> views(out@) == replaced_from(lv, 0, bv, rv, 0),
        decreases blocks@.len() - k + if stop { 0int } else { 1int },
    {
        let s = blocks[k].start_line;
        let e = blocks[k].end_line;
        let ghost before = views(out@);
        if s < from || e < s || e >= n {
            push_lines(&mut out, &ls, from, n);
            assert(views(out@) =~= before + replaced_from(lv, from as int, bv, rv, k as int));
            stop = true;
        } else {
            push_lines(&mut out, &ls, from, s);
            let ghost mid = views(out@);
            out.push(string_from(replacements[k].as_str()));
            assert(views(out@) =~= mid.push(rv[k as int]));
            assert(bv[k as int] == (s as int, e as int));
            assert(replaced_from(lv, from as int, bv, rv, k as int) == lv.subrange(from as int, s as int) + seq![rv[k as int]]
                + replaced_from(lv, e + 1, bv, rv, k + 1));
            assert(views(out@) + replaced_from(lv, e + 1, bv, rv, k + 1)
                =~= before + replaced_from(lv, from as int, bv, rv, k as int));
            from = e + 1;
            k = k + 1;
        }
    }
    if !stop {
        let ghost before = views(out@);
        push_lines(&mut out, &ls, from, n);
        assert(views(out@) =~= before + replaced_from(lv, from as int, bv, rv, k as int));
    }
    join_strings(&out, "\n")
}

/// A block that was rendered: its index among the diagram blocks, the path
/// its image was written to, and the link the Markdown uses for it.
#[derive(Clone, Debug)]
pub struct RenderedBlock {
    pub index: usize,
    pub image_path: String,
    pub link: String,
}

/// What processing a Markdown file gives: how many diagram blocks it holds,
/// how many were rendered, each rendered block, and the rewritten Markdown.
#[derive(Clone, Debug)]
pub struct ProcessResult {
    pub blocks_found: usize,
    pub blocks_rendered: usize,
    pub rendered: Vec<RenderedBlock>,
    pub output_markdown: String,
}

/// How to process a Markdown file: the image format, the theme and the
/// prefix of image file names.
#[derive(Clone, Debug)]
pub struct ProcessOptions {
    pub image_format: ImageFormat,
    pub theme: crate::theme::Theme,
    pub name_prefix: String,
}

/// The image line of a rendered block.
pub open spec fn rendered_line(b: RenderedBlock) -> Seq<char> {
    "![diagram "@ + decimal(b.index as nat) + "]("@ + b.link@ + ")"@
}

/// The result of processing `source`, whose diagram blocks are `blocks` and
/// were rendered, in order, as `rendered`: the counts, the rendered blocks,
/// and the Markdown with each block replaced by its image line.
pub fn process_result(source: &str, blocks: &Vec<FencedBlock>, rendered: Vec<RenderedBlock>) -> (r: ProcessResult)
    requires
        rendered@.len() == blocks@.len(),
    ensures
        r.blocks_found == blocks@.len(),
        r.blocks_rendered == rendered@.len(),
        r.rendered@ == rendered@,
        r.output_markdown@ == join(
            replaced_from(lines(source@), 0, ranges_v(blocks@), Seq::new(rendered@.len(), |k: int| rendered_line(rendered@[k])), 0),
            "\n"@,
        ),
{
    let mut reps: Vec<String> = Vec::new();
    let mut k: usize = 0;
    while k < rendered.len()
        invariant
            k <= rendered@.len(),
            views(reps@) == Seq::new(k as nat, |j: int| rendered_line(rendered@[j])),
        decreases rendered@.len() - k,
    {
        let line = image_link(rendered[k].index, rendered[k].link.as_str());
        let ghost before = views(reps@);
        let ghost lv = line@;
        reps.push(line);
        assert(views(reps@) =~= before.push(lv));
        assert(lv == rendered_line(rendered@[k as int]));
        assert(views(reps@) =~= Seq::new((k + 1) as nat, |j: int| rendered_line(rendered@[j])));
        k = k + 1;
    }
    let out = replace_blocks(source, blocks, &reps);
    assert(views(reps@) =~= Seq::new(rendered@.len(), |j: int| rendered_line(rendered@[j])));
    let found = blocks.len();
    let count = rendered.len();
    ProcessResult { blocks_found: found, blocks_rendered: count, rendered, output_markdown: out }
}

} // verus!
