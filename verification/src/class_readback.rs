//! Read-after-write law for class diagrams: the Mermaid text that the writer
//! prints for classes (members and stereotypes) and relations reads back as
//! the same diagram.

use vstd::prelude::*;
use crate::class::{
    add_member, class_block, class_mermaid, class_note, class_parse, cls_run, cls_step, empty_cls_st, ensure_class,
    has_class, left_card, left_endpoint, member_annotation, member_id_char, member_line, note_text, relation_from,
    relation_line, relation_order, relation_text, relation_token, relation_with, right_card, right_endpoint,
    set_stereotype, split_id_stereotype, stereo_text, stereotype_only, ClassDiagramV, ClassV, ClsSt, RelV,
    RelationKind,
};
use crate::er_readback::{
    lemma_not_comment, lemma_spaces, lemma_trim_lead, lemma_trim_space_end,
};
use crate::readback::{
    lemma_find_absent, lemma_find_first, lemma_flat_map, lemma_nl_append, lemma_nl_one, nl_text, one_line,
};
use crate::seq_readback::{
    lemma_lines_nl, lemma_numbered_all,
};
use crate::text::{
    alphanumeric, find_char, flat, is_ws, keep_content, kept_numbered, lemma_find_char_from, lines, occurs_at,
    split_once, strip_prefix, trim, trim_start,
};

verus! {

/// Characters that can make up a relation token.
pub open spec fn token_char(c: char) -> bool {
    c == '-' || c == '>' || c == '<' || c == '|'
}

/// Text the class reader takes as it stands inside a relation line: no line
/// break, quote, colon, brace, and no character of a relation token.
pub open spec fn cls_free(s: Seq<char>) -> bool {
    forall|j: int| 0 <= j < s.len() ==> #[trigger] s[j] != '\n' && s[j] != '"' && s[j] != ':' && s[j] != '{' && s[j]
        != '}' && !token_char(s[j])
}

/// No whitespace at either end.
pub open spec fn tight(s: Seq<char>) -> bool {
    s.len() == 0 || (!is_ws(s[0]) && !is_ws(s.last()))
}

/// A class id the reader takes as it stands.
pub open spec fn cls_id(id: Seq<char>) -> bool {
    &&& id.len() > 0
    &&& id[0] != '%'
    &&& cls_free(id)
    &&& forall|j: int| 0 <= j < id.len() ==> !is_ws(#[trigger] id[j]) && id[j] != ';'
    &&& id != "class"@
    &&& id != "note"@
}

/// A member line the reader takes as it stands.
pub open spec fn member_ok(m: Seq<char>) -> bool {
    &&& m.len() > 0
    &&& tight(m)
    &&& m[0] != '%'
    &&& m[0] != '<'
    &&& m.last() != '}'
    &&& forall|j: int| 0 <= j < m.len() ==> #[trigger] m[j] != '\n'
}

pub open spec fn class_ok(c: ClassV) -> bool {
    &&& cls_id(c.0)
    &&& forall|k: int| 0 <= k < c.1.len() ==> member_ok(#[trigger] c.1[k])
    &&& match c.2 {
        Some(s) => s.len() > 0 && tight(s) && cls_free(s),
        None => true,
    }
}

pub open spec fn card_ok(c: Option<Seq<char>>) -> bool {
    match c {
        Some(x) => tight(x) && cls_free(x),
        None => true,
    }
}

pub open spec fn relation_ok(r: RelV) -> bool {
    cls_id(r.0) && cls_id(r.1) && tight(r.3) && cls_free(r.3) && card_ok(r.4) && card_ok(r.5)
}

pub open spec fn has_id(d: ClassDiagramV, id: Seq<char>) -> bool {
    exists|a: int| 0 <= a < d.classes.len() && (#[trigger] d.classes[a]).0 == id
}

/// A class diagram of classes and relations (no notes), with distinct class
/// ids, whose relations join its classes.
pub open spec fn plain_class(d: ClassDiagramV) -> bool {
    &&& d.notes.len() == 0
    &&& forall|k: int| 0 <= k < d.classes.len() ==> class_ok(#[trigger] d.classes[k])
    &&& forall|a: int, b: int| 0 <= a < b < d.classes.len() ==> (#[trigger] d.classes[a]).0 != (#[trigger] d.classes[b]).0
    &&& forall|k: int| 0 <= k < d.relations.len() ==> relation_ok(#[trigger] d.relations[k]) && has_id(d, d.relations[k].0)
        && has_id(d, d.relations[k].1)
}

pub open spec fn cls_head(c: ClassV) -> Seq<char> {
    if c.1.len() == 0 {
        "class "@ + c.0 + stereo_text(c.2)
    } else {
        "class "@ + c.0 + stereo_text(c.2) + " {"@
    }
}

pub open spec fn cls_stmts(c: ClassV) -> Seq<Seq<char>> {
    if c.1.len() == 0 {
        seq![cls_head(c)]
    } else {
        seq![cls_head(c)] + c.1 + seq!["}"@]
    }
}

pub open spec fn cls_raw(c: ClassV) -> Seq<Seq<char>> {
    if c.1.len() == 0 {
        seq!["    "@ + cls_head(c)]
    } else {
        seq!["    "@ + cls_head(c)] + c.1.map_values(|m: Seq<char>| "        "@ + m) + seq!["    }"@]
    }
}

pub open spec fn rel_tail(r: RelV) -> Seq<char> {
    if r.3.len() == 0 {
        Seq::empty()
    } else {
        " : "@ + r.3
    }
}

pub open spec fn rel_stmt(r: RelV) -> Seq<char> {
    r.0 + left_card(r.4) + " "@ + relation_token(r.2) + " "@ + (right_card(r.5) + r.1) + rel_tail(r)
}

pub open spec fn cls_lines(cs: Seq<ClassV>) -> Seq<Seq<char>>
    decreases cs.len(),
{
    if cs.len() == 0 {
        Seq::empty()
    } else {
        cls_lines(cs.drop_last()) + cls_raw(cs.last())
    }
}

pub open spec fn cls_stmt_lines(cs: Seq<ClassV>) -> Seq<Seq<char>>
    decreases cs.len(),
{
    if cs.len() == 0 {
        Seq::empty()
    } else {
        cls_stmt_lines(cs.drop_last()) + cls_stmts(cs.last())
    }
}

pub open spec fn class_raw(d: ClassDiagramV) -> Seq<Seq<char>> {
    seq!["classDiagram"@] + cls_lines(d.classes) + d.relations.map_values(|r: RelV| "    "@ + rel_stmt(r))
}

pub open spec fn class_stmts(d: ClassDiagramV) -> Seq<Seq<char>> {
    seq!["classDiagram"@] + cls_stmt_lines(d.classes) + d.relations.map_values(|r: RelV| rel_stmt(r))
}

proof fn lemma_head(c: ClassV)
    requires
        class_ok(c),
    ensures
        cls_head(c).len() > 0,
        cls_head(c)[0] == 'c',
        !is_ws(cls_head(c).last()),
        forall|j: int| 0 <= j < cls_head(c).len() ==> #[trigger] cls_head(c)[j] != '\n',
{
    reveal_strlit("class ");
    reveal_strlit(" <<");
    reveal_strlit(">>");
    reveal_strlit(" {");
    let h = cls_head(c);
    let st = stereo_text(c.2);
    assert(!is_ws(c.0[c.0.len() - 1]));
    assert forall|j: int| 0 <= j < st.len() implies #[trigger] st[j] != '\n' by {
        if let Some(x) = c.2 {
            if 3 <= j < 3 + x.len() {
                assert(st[j] == x[j - 3]);
            }
        }
    }
    if c.2 is Some {
        assert(st.last() == '>');
    } else {
        assert(st.len() == 0);
    }
    assert forall|j: int| 0 <= j < h.len() implies #[trigger] h[j] != '\n' by {
        if 6 <= j < 6 + c.0.len() {
            assert(h[j] == c.0[j - 6]);
        } else if 6 + c.0.len() <= j < 6 + c.0.len() + st.len() {
            assert(h[j] == st[j - 6 - c.0.len()]);
        }
    }
}

proof fn lemma_class_text(c: ClassV)
    requires
        class_ok(c),
    ensures
        class_block(c) == nl_text(cls_raw(c)),
        cls_raw(c).len() == cls_stmts(c).len(),
        forall|x: int| 0 <= x < cls_raw(c).len() ==> one_line(#[trigger] cls_raw(c)[x]) && trim(cls_raw(c)[x])
            == cls_stmts(c)[x] && keep_content(cls_stmts(c)[x]),
{
    reveal_strlit("    class ");
    reveal_strlit("    ");
    reveal_strlit("        ");
    reveal_strlit("class ");
    reveal_strlit(" {\n");
    reveal_strlit(" {");
    reveal_strlit("    }\n");
    reveal_strlit("    }");
    reveal_strlit("}");
    reveal_strlit("\n");
    lemma_spaces();
    lemma_head(c);
    let h = cls_head(c);
    let hl = "    "@ + h;
    lemma_nl_one(hl);
    lemma_trim_lead("    "@, h);
    lemma_not_comment(h);
    assert forall|j: int| 0 <= j < hl.len() implies #[trigger] hl[j] != '\n' by {
        if 4 <= j {
            assert(hl[j] == h[j - 4]);
        }
    }
    if c.1.len() == 0 {
        assert(class_block(c) =~= hl + "\n"@);
    } else {
        let fm = |m: Seq<char>| member_line(m);
        let gm = |m: Seq<char>| "        "@ + m;
        assert forall|k: int| 0 <= k < c.1.len() implies fm(#[trigger] c.1[k]) == gm(c.1[k]) + "\n"@ by {
            assert(member_line(c.1[k]) =~= "        "@ + c.1[k] + "\n"@);
        }
        lemma_flat_map(c.1, fm, gm);
        let mid = c.1.map_values(gm);
        let cl = "    }"@;
        lemma_nl_append(seq![hl] + mid, seq![cl]);
        lemma_nl_append(seq![hl], mid);
        lemma_nl_one(cl);
        assert(cls_raw(c) =~= seq![hl] + mid + seq![cl]);
        assert(class_block(c) =~= (hl + "\n"@) + nl_text(mid) + (cl + "\n"@));
        let raw = cls_raw(c);
        let st = cls_stmts(c);
        let n = c.1.len() as int;
        assert forall|x: int| 0 <= x < raw.len() implies one_line(#[trigger] raw[x]) && trim(raw[x]) == st[x]
            && keep_content(st[x]) by {
            if x == 0 {
            } else if x <= n {
                let m = c.1[x - 1];
                assert(member_ok(m));
                assert(raw[x] == "        "@ + m);
                assert(st[x] == m);
                lemma_trim_lead("        "@, m);
                lemma_not_comment(m);
                assert forall|j: int| 0 <= j < raw[x].len() implies #[trigger] raw[x][j] != '\n' by {
                    if 8 <= j {
                        assert(raw[x][j] == m[j - 8]);
                    }
                }
            } else {
                assert(raw[x] == cl);
                assert(st[x] == "}"@);
                assert(cl =~= "    "@ + "}"@);
                lemma_trim_lead("    "@, "}"@);
                lemma_not_comment("}"@);
            }
        }
    }
}

proof fn lemma_cls_lines(cs: Seq<ClassV>)
    requires
        forall|k: int| 0 <= k < cs.len() ==> class_ok(#[trigger] cs[k]),
    ensures
        flat(cs, |c: ClassV| class_block(c)) == nl_text(cls_lines(cs)),
        cls_lines(cs).len() == cls_stmt_lines(cs).len(),
        forall|x: int| 0 <= x < cls_lines(cs).len() ==> one_line(#[trigger] cls_lines(cs)[x]) && trim(cls_lines(cs)[x])
            == cls_stmt_lines(cs)[x] && keep_content(cls_stmt_lines(cs)[x]),
    decreases cs.len(),
{
    if cs.len() > 0 {
        let p = cs.drop_last();
        assert forall|k: int| 0 <= k < p.len() implies class_ok(#[trigger] p[k]) by {
            assert(p[k] == cs[k]);
        }
        lemma_cls_lines(p);
        let c = cs.last();
        assert(class_ok(cs[cs.len() - 1]));
        lemma_class_text(c);
        lemma_nl_append(cls_lines(p), cls_raw(c));
        let a = cls_lines(cs);
        let b = cls_stmt_lines(cs);
        let m = cls_lines(p).len() as int;
        assert forall|x: int| 0 <= x < a.len() implies one_line(#[trigger] a[x]) && trim(a[x]) == b[x] && keep_content(
            b[x],
        ) by {
            if x < m {
                assert(a[x] == cls_lines(p)[x]);
                assert(b[x] == cls_stmt_lines(p)[x]);
            } else {
                assert(a[x] == cls_raw(c)[x - m]);
                assert(b[x] == cls_stmts(c)[x - m]);
            }
        }
    } else {
        assert(nl_text(cls_lines(cs)) == Seq::<char>::empty());
    }
}

proof fn lemma_token(k: RelationKind)
    ensures
        relation_token(k).len() >= 2,
        forall|j: int| 0 <= j < relation_token(k).len() ==> !is_ws(#[trigger] relation_token(k)[j])
            && relation_token(k)[j] != '\n' && relation_token(k)[j] != '"' && relation_token(k)[j] != ':',
        exists|j: int| 0 <= j < relation_token(k).len() && token_char(#[trigger] relation_token(k)[j]),
{
    reveal_strlit("<|--");
    reveal_strlit("*--");
    reveal_strlit("o--");
    reveal_strlit("-->");
    reveal_strlit("--");
    reveal_strlit("..>");
    reveal_strlit("..|>");
    match k {
        RelationKind::Inheritance => { assert(token_char(relation_token(k)[0])); },
        RelationKind::Composition => { assert(token_char(relation_token(k)[1])); },
        RelationKind::Aggregation => { assert(token_char(relation_token(k)[1])); },
        RelationKind::Association => { assert(token_char(relation_token(k)[0])); },
        RelationKind::Link => { assert(token_char(relation_token(k)[0])); },
        RelationKind::Dependency => { assert(token_char(relation_token(k)[2])); },
        RelationKind::Realization => { assert(token_char(relation_token(k)[2])); },
    }
}

proof fn lemma_rel_text(r: RelV)
    requires
        relation_ok(r),
    ensures
        relation_text(r) == "    "@ + rel_stmt(r) + "\n"@,
        one_line("    "@ + rel_stmt(r)),
        trim("    "@ + rel_stmt(r)) == rel_stmt(r),
        keep_content(rel_stmt(r)),
        rel_stmt(r)[0] == r.0[0],
{
    reveal_strlit("    ");
    reveal_strlit(" ");
    reveal_strlit(" : ");
    reveal_strlit(" \"");
    reveal_strlit("\"");
    reveal_strlit("\" ");
    reveal_strlit("\n");
    lemma_spaces();
    lemma_token(r.2);
    let t = rel_stmt(r);
    let lc = left_card(r.4);
    let rc = right_card(r.5);
    let tok = relation_token(r.2);
    let tl = rel_tail(r);
    assert(relation_text(r) =~= "    "@ + t + "\n"@);
    assert(t[0] == r.0[0]);
    assert(!is_ws(r.0[0]));
    if r.3.len() == 0 {
        assert(t.last() == r.1.last());
        assert(!is_ws(r.1[r.1.len() - 1]));
    } else {
        assert(t.last() == r.3.last());
    }
    lemma_trim_lead("    "@, t);
    lemma_not_comment(t);
    let l = "    "@ + t;
    let a = r.0.len() as int;
    let b = a + lc.len();
    let c = b + 1 + tok.len() + 1;
    let e = c + rc.len();
    let f = e + r.1.len();
    assert forall|j: int| 0 <= j < l.len() implies #[trigger] l[j] != '\n' by {
        let k = j - 4;
        if 0 <= k < a {
            assert(l[j] == r.0[k]);
        } else if a <= k < b {
            assert(l[j] == lc[k - a]);
            if let Some(x) = r.4 {
                if 2 <= k - a < 2 + x.len() {
                    assert(lc[k - a] == x[k - a - 2]);
                }
            }
        } else if b + 1 <= k < b + 1 + tok.len() {
            assert(l[j] == tok[k - b - 1]);
        } else if c <= k < e {
            assert(l[j] == rc[k - c]);
            if let Some(x) = r.5 {
                if 1 <= k - c < 1 + x.len() {
                    assert(rc[k - c] == x[k - c - 1]);
                }
            }
        } else if e <= k < f {
            assert(l[j] == r.1[k - e]);
        } else if f <= k {
            assert(l[j] == tl[k - f]);
            if k - f >= 3 {
                assert(tl[k - f] == r.3[k - f - 3]);
            }
        }
    }
}

proof fn lemma_class_text_all(d: ClassDiagramV)
    requires
        plain_class(d),
    ensures
        class_raw(d).len() == class_stmts(d).len(),
        kept_numbered(lines(class_mermaid(d)), |l: Seq<char>| keep_content(l)) == Seq::new(
            class_raw(d).len(),
            |i: int| (i + 1, class_stmts(d)[i]),
        ),
{
    reveal_strlit("classDiagram\n");
    reveal_strlit("classDiagram");
    reveal_strlit("\n");
    let cs = d.classes;
    let rs = d.relations;
    lemma_cls_lines(cs);
    let fr = |r: RelV| relation_text(r);
    let gr = |r: RelV| "    "@ + rel_stmt(r);
    assert forall|k: int| 0 <= k < rs.len() implies fr(#[trigger] rs[k]) == gr(rs[k]) + "\n"@ by {
        assert(relation_ok(rs[k]));
        lemma_rel_text(rs[k]);
    }
    lemma_flat_map(rs, fr, gr);
    assert(d.notes =~= Seq::<(Seq<char>, Seq<char>)>::empty());
    assert(flat(d.notes, |n: (Seq<char>, Seq<char>)| note_text(n)) == Seq::<char>::empty());
    let h = seq!["classDiagram"@];
    let cl = cls_lines(cs);
    let rl = rs.map_values(gr);
    lemma_nl_one("classDiagram"@);
    lemma_nl_append(h + cl, rl);
    lemma_nl_append(h, cl);
    let raw = class_raw(d);
    assert(raw =~= h + cl + rl);
    assert(class_mermaid(d) =~= nl_text(h) + nl_text(cl) + nl_text(rl) + Seq::<char>::empty());
    let st = class_stmts(d);
    let m = cl.len() as int;
    assert forall|i: int| 0 <= i < raw.len() implies one_line(#[trigger] raw[i]) && trim(raw[i]) == st[i] && keep_content(
        st[i],
    ) by {
        if i == 0 {
            assert(raw[0] == "classDiagram"@);
            assert(st[0] == "classDiagram"@);
            crate::text::lemma_trim_fixed(raw[0]);
            lemma_not_comment(st[0]);
        } else if i <= m {
            assert(raw[i] == cl[i - 1]);
            assert(st[i] == cls_stmt_lines(cs)[i - 1]);
        } else {
            let k = i - 1 - m;
            assert(relation_ok(rs[k]));
            lemma_rel_text(rs[k]);
            assert(raw[i] == "    "@ + rel_stmt(rs[k]));
            assert(st[i] == rel_stmt(rs[k]));
        }
    }
    lemma_lines_nl(raw);
    lemma_numbered_all(raw, st);
}

proof fn lemma_split_id(c: ClassV)
    requires
        class_ok(c),
    ensures
        split_id_stereotype(c.0 + stereo_text(c.2)) == (c.0, c.2),
{
    reveal_strlit(" <<");
    reveal_strlit(">>");
    reveal_strlit("<<");
    reveal_strlit(" ");
    let x = c.0 + stereo_text(c.2);
    let q = c.0.len() as int;
    assert(x[0] == c.0[0]);
    assert(!is_ws(c.0[0]) && !is_ws(c.0[q - 1]));
    match c.2 {
        None => {
            assert(x =~= c.0);
            crate::text::lemma_trim_fixed(x);
            assert forall|j: int| 0 <= j implies !occurs_at(x, "<<"@, j) by {
                if occurs_at(x, "<<"@, j) {
                    assert(x.subrange(j, j + 2)[0] == x[j]);
                    assert(token_char(c.0[j]));
                }
            }
            lemma_find_absent(x, "<<"@);
        },
        Some(st) => {
            assert(x.last() == '>');
            crate::text::lemma_trim_fixed(x);
            assert(occurs_at(x, "<<"@, q + 1)) by {
                assert(x.subrange(q + 1, q + 3) =~= "<<"@);
            }
            assert forall|j: int| 0 <= j < q + 1 implies !occurs_at(x, "<<"@, j) by {
                if occurs_at(x, "<<"@, j) {
                    assert(x.subrange(j, j + 2)[0] == x[j]);
                    if j < q {
                        assert(x[j] == c.0[j]);
                        assert(token_char(c.0[j]));
                    } else {
                        assert(x[j] == ' ');
                    }
                }
            }
            lemma_find_first(x, "<<"@, q + 1);
            let after = x.subrange(q + 3, x.len() as int);
            let n = st.len() as int;
            assert(after =~= st + ">>"@);
            assert(occurs_at(after, ">>"@, n)) by {
                assert(after.subrange(n, n + 2) =~= ">>"@);
            }
            assert forall|j: int| 0 <= j < n implies !occurs_at(after, ">>"@, j) by {
                if occurs_at(after, ">>"@, j) {
                    assert(after.subrange(j, j + 2)[0] == after[j]);
                    assert(after[j] == st[j]);
                    assert(token_char(st[j]));
                }
            }
            lemma_find_first(after, ">>"@, n);
            assert(x.subrange(0, q + 1) =~= c.0 + " "@);
            lemma_trim_space_end(c.0);
            assert(after.subrange(0, n) =~= st);
            crate::text::lemma_trim_fixed(st);
        },
    }
}

proof fn lemma_stereo_word(c: ClassV)
    requires
        class_ok(c),
    ensures
        (c.0 + stereo_text(c.2)).len() > 0,
        (c.0 + stereo_text(c.2))[0] == c.0[0],
        !is_ws((c.0 + stereo_text(c.2)).last()),
        forall|j: int| 0 <= j < (c.0 + stereo_text(c.2)).len() ==> #[trigger] (c.0 + stereo_text(c.2))[j] != '{',
{
    reveal_strlit(" <<");
    reveal_strlit(">>");
    let x = c.0 + stereo_text(c.2);
    if c.2 is None {
        assert(x =~= c.0);
        assert(!is_ws(c.0[c.0.len() - 1]));
    } else {
        assert(x.last() == '>');
    }
    assert forall|j: int| 0 <= j < x.len() implies #[trigger] x[j] != '{' by {
        if j < c.0.len() {
            assert(x[j] == c.0[j]);
        } else if let Some(sv) = c.2 {
            let k = j - c.0.len();
            if 3 <= k < 3 + sv.len() {
                assert(x[j] == sv[k - 3]);
            }
        }
    }
}

proof fn lemma_new_class(cs: Seq<ClassV>, c: ClassV)
    requires
        !has_class(cs, c.0),
    ensures
        set_stereotype(ensure_class(cs, c.0), c.0, c.2) == cs.push((c.0, Seq::<Seq<char>>::empty(), c.2)),
{
    let cs1 = ensure_class(cs, c.0);
    assert(cs1 == cs.push((c.0, Seq::<Seq<char>>::empty(), None::<Seq<char>>)));
    if let Some(sv) = c.2 {
        assert forall|i: int| 0 <= i < cs1.len() implies #[trigger] set_stereotype(cs1, c.0, c.2)[i] == cs.push(
            (c.0, Seq::<Seq<char>>::empty(), c.2),
        )[i] by {
            if i < cs.len() {
                assert(cs1[i] == cs[i]);
                if cs[i].0 == c.0 {
                    assert(has_class(cs, c.0));
                }
            }
        }
    }
    assert(set_stereotype(cs1, c.0, c.2) =~= cs.push((c.0, Seq::<Seq<char>>::empty(), c.2)));
}

/// A class line adds the class, and opens its body when it has members.
#[verifier::rlimit(40)]
proof fn lemma_class_step(st: ClsSt, n: int, c: ClassV)
    requires
        class_ok(c),
        st.body is None,
        !has_class(st.d.classes, c.0),
    ensures
        cls_step(st, n, cls_head(c)) == Ok::<ClsSt, (Seq<char>, Option<int>)>(
            ClsSt {
                d: ClassDiagramV { classes: st.d.classes.push((c.0, Seq::empty(), c.2)), ..st.d },
                body: if c.1.len() == 0 {
                    None
                } else {
                    Some(c.0)
                },
            },
        ),
{
    reveal_strlit("class ");
    reveal_strlit(" {");
    reveal_strlit("}");
    reveal_strlit(" ");
    lemma_stereo_word(c);
    let h = cls_head(c);
    let x = c.0 + stereo_text(c.2);
    let xl = x.len() as int;
    let rest = if c.1.len() == 0 {
        x
    } else {
        x + " {"@
    };
    assert(h =~= "class "@ + rest);
    assert(h.subrange(0, 6) =~= "class "@);
    assert(h.subrange(6, h.len() as int) =~= rest);
    assert(strip_prefix(h, "class "@) == Some(rest));
    assert(rest[0] == x[0]);
    assert(!is_ws(c.0[0]));
    assert(!is_ws(rest.last()));
    crate::text::lemma_trim_fixed(rest);
    lemma_split_id(c);
    lemma_new_class(st.d.classes, c);
    lemma_find_char_from(rest, '{', 0);
    if c.1.len() == 0 {
        assert(find_char(rest, '{') is None);
    } else {
        assert forall|j: int| 0 <= j < xl + 1 implies rest[j] != '{' by {
            if j < xl {
                assert(rest[j] == x[j]);
            }
        }
        assert(rest[xl + 1] == '{');
        assert(find_char(rest, '{') == Some(xl + 1));
        assert(rest.subrange(0, xl + 1) =~= x + " "@);
        lemma_trim_space_end(x);
        let after = rest.subrange(xl + 2, rest.len() as int);
        assert(after =~= Seq::<char>::empty());
        assert(trim(after) =~= Seq::<char>::empty());
        assert(!"}"@.is_suffix_of(trim(after)));
    }
}

/// A member line adds the member to the open class.
proof fn lemma_member_step(st: ClsSt, n: int, cs: Seq<ClassV>, c: ClassV, m: Seq<char>)
    requires
        member_ok(m),
        st.body == Some(c.0),
        st.d.classes == cs.push(c),
        !has_class(cs, c.0),
    ensures
        cls_step(st, n, m) == Ok::<ClsSt, (Seq<char>, Option<int>)>(
            ClsSt { d: ClassDiagramV { classes: cs.push((c.0, c.1.push(m), c.2)), ..st.d }, ..st },
        ),
{
    reveal_strlit("}");
    reveal_strlit("<<");
    assert(m != "}"@) by {
        if m == "}"@ {
            assert(m.last() == '}');
        }
    }
    assert(!"}"@.is_suffix_of(m)) by {
        if "}"@.is_suffix_of(m) {
            assert(m.subrange(m.len() - 1, m.len() as int)[0] == m.last());
        }
    }
    crate::text::lemma_trim_fixed(m);
    assert(!"<<"@.is_prefix_of(m)) by {
        if "<<"@.is_prefix_of(m) {
            assert(m.subrange(0, 2)[0] == m[0]);
        }
    }
    assert(stereotype_only(m) is None);
    let all = cs.push(c);
    assert(add_member(all, c.0, m) =~= cs.push((c.0, c.1.push(m), c.2))) by {
        assert forall|i: int| 0 <= i < all.len() implies #[trigger] add_member(all, c.0, m)[i] == cs.push(
            (c.0, c.1.push(m), c.2),
        )[i] by {
            if i < cs.len() {
                if cs[i].0 == c.0 {
                    assert(has_class(cs, c.0));
                }
            }
        }
    }
}

proof fn lemma_rfind_char(u: Seq<char>, c: char, p: int, j: int)
    requires
        0 <= p < j <= u.len(),
        u[p] == c,
        forall|k: int| p < k < u.len() ==> u[k] != c,
    ensures
        crate::text::rfind_char_before(u, c, j) == Some(p),
    decreases j,
{
    if j > p + 1 {
        lemma_rfind_char(u, c, p, j - 1);
    }
}

proof fn lemma_left_end(a: Seq<char>, c: Option<Seq<char>>)
    requires
        cls_id(a),
        card_ok(c),
    ensures
        left_endpoint(a + left_card(c)) == (a, c),
        trim(a + left_card(c)) == a + left_card(c),
{
    reveal_strlit(" \"");
    reveal_strlit("\"");
    reveal_strlit(" ");
    let s = a + left_card(c);
    let q = a.len() as int;
    assert(!is_ws(a[0]) && !is_ws(a[q - 1]));
    crate::text::lemma_trim_fixed(a);
    match c {
        None => {
            assert(s =~= a);
            assert(s.last() != '"');
        },
        Some(x) => {
            assert(s.last() == '"');
            assert(s[0] == a[0]);
            crate::text::lemma_trim_fixed(s);
            let ie = s.len() - 1;
            let u = s.subrange(0, ie);
            assert(u[q + 1] == '"');
            assert forall|k: int| q + 1 < k < u.len() implies u[k] != '"' by {
                assert(u[k] == x[k - q - 2]);
            }
            lemma_rfind_char(u, '"', q + 1, u.len() as int);
            assert(s.subrange(0, q + 1) =~= a + " "@);
            lemma_trim_space_end(a);
            assert(s.subrange(q + 2, ie) =~= x);
            crate::text::lemma_trim_fixed(x);
        },
    }
}

proof fn lemma_right_end(b: Seq<char>, c: Option<Seq<char>>)
    requires
        cls_id(b),
        card_ok(c),
    ensures
        right_endpoint(right_card(c) + b) == (b, c),
        trim(right_card(c) + b) == right_card(c) + b,
        (right_card(c) + b).len() > 0,
        !is_ws((right_card(c) + b)[0]),
{
    reveal_strlit("\" ");
    reveal_strlit("\"");
    reveal_strlit(" ");
    let s = right_card(c) + b;
    let q = b.len() as int;
    assert(!is_ws(b[0]) && !is_ws(b[q - 1]));
    crate::text::lemma_trim_fixed(b);
    assert(s.last() == b.last());
    match c {
        None => {
            assert(s =~= b);
            assert(s[0] != '"');
        },
        Some(y) => {
            assert(s[0] == '"');
            crate::text::lemma_trim_fixed(s);
            let v = s.subrange(1, s.len() as int);
            let n = y.len() as int;
            lemma_find_char_from(v, '"', 0);
            assert forall|k: int| 0 <= k < n implies v[k] != '"' by {
                assert(v[k] == y[k]);
            }
            assert(v[n] == '"');
            assert(find_char(v, '"') == Some(n));
            assert(s.subrange(1, n + 1) =~= y);
            crate::text::lemma_trim_fixed(y);
            assert(s.subrange(n + 2, s.len() as int) =~= " "@ + b);
            lemma_trim_space_end(b);
        },
    }
}

pub open spec fn kind_idx(k: RelationKind) -> int {
    match k {
        RelationKind::Realization => 0,
        RelationKind::Inheritance => 1,
        RelationKind::Composition => 2,
        RelationKind::Aggregation => 3,
        RelationKind::Association => 4,
        RelationKind::Dependency => 5,
        RelationKind::Link => 6,
    }
}

/// A token tried before another is no part of it.
proof fn lemma_earlier_not_inside(k2: RelationKind, k: RelationKind, o: int)
    requires
        kind_idx(k2) < kind_idx(k),
        0 <= o,
        o + relation_token(k2).len() <= relation_token(k).len(),
    ensures
        relation_token(k2) != relation_token(k).subrange(o, o + relation_token(k2).len()),
{
    reveal_strlit("<|--");
    reveal_strlit("*--");
    reveal_strlit("o--");
    reveal_strlit("-->");
    reveal_strlit("--");
    reveal_strlit("..>");
    reveal_strlit("..|>");
    let a = relation_token(k2);
    let b = relation_token(k).subrange(o, o + a.len());
    if a == b {
        assert(a[0] == b[0]);
        assert(b[0] == relation_token(k)[o]);
    }
}

proof fn lemma_order()
    ensures
        forall|k: RelationKind| #[trigger] relation_order()[kind_idx(k)] == k,
        forall|i: int| 0 <= i < 7 ==> kind_idx(#[trigger] relation_order()[i]) == i,
        relation_order().len() == 7,
{
}

pub open spec fn tok_at(r: RelV) -> int {
    (r.0.len() + left_card(r.4).len() + 1) as int
}

/// Token characters of a relation line are those of its token.
#[verifier::rlimit(40)]
proof fn lemma_token_chars(r: RelV)
    requires
        relation_ok(r),
    ensures
        forall|j: int| 0 <= j < rel_stmt(r).len() && !(tok_at(r) <= j < tok_at(r) + relation_token(r.2).len()) ==> !token_char(
            #[trigger] rel_stmt(r)[j],
        ),
        rel_stmt(r)[tok_at(r) - 1] == ' ',
        rel_stmt(r)[tok_at(r) + relation_token(r.2).len()] == ' ',
        rel_stmt(r).subrange(tok_at(r), tok_at(r) + relation_token(r.2).len()) == relation_token(r.2),
{
    reveal_strlit(" ");
    reveal_strlit(" : ");
    reveal_strlit(" \"");
    reveal_strlit("\"");
    reveal_strlit("\" ");
    let t = rel_stmt(r);
    let lc = left_card(r.4);
    let rc = right_card(r.5);
    let tok = relation_token(r.2);
    let tl = rel_tail(r);
    let a = r.0.len() as int;
    let b = a + lc.len();
    let c = b + 1 + tok.len() + 1;
    let e = c + rc.len();
    let f = e + r.1.len();
    assert(t =~= r.0 + lc + " "@ + tok + " "@ + (rc + r.1) + tl);
    assert forall|j: int| 0 <= j < t.len() && !(tok_at(r) <= j < tok_at(r) + tok.len()) implies !token_char(#[trigger] t[j]) by {
        if j < a {
            assert(t[j] == r.0[j]);
        } else if j < b {
            assert(t[j] == lc[j - a]);
            if let Some(x) = r.4 {
                if 2 <= j - a < 2 + x.len() {
                    assert(lc[j - a] == x[j - a - 2]);
                }
            }
        } else if j == b {
        } else if j == c - 1 {
        } else if c <= j < e {
            assert(t[j] == rc[j - c]);
            if let Some(x) = r.5 {
                if 1 <= j - c < 1 + x.len() {
                    assert(rc[j - c] == x[j - c - 1]);
                }
            }
        } else if e <= j < f {
            assert(t[j] == r.1[j - e]);
        } else {
            assert(t[j] == tl[j - f]);
            if j - f >= 3 {
                assert(tl[j - f] == r.3[j - f - 3]);
            }
        }
    }
    assert(t.subrange(b + 1, b + 1 + tok.len()) =~= tok);
}

/// Any relation token in the line lies inside the printed token.
proof fn lemma_tok_region(r: RelV, k2: RelationKind, j: int)
    requires
        relation_ok(r),
        occurs_at(rel_stmt(r), relation_token(k2), j),
    ensures
        tok_at(r) <= j,
        j + relation_token(k2).len() <= tok_at(r) + relation_token(r.2).len(),
{
    lemma_token_chars(r);
    lemma_token(k2);
    let t = rel_stmt(r);
    let p = relation_token(k2);
    let qt = tok_at(r);
    let n = relation_token(r.2).len() as int;
    let i0 = choose|i: int| 0 <= i < p.len() && token_char(#[trigger] p[i]);
    let w = t.subrange(j, j + p.len());
    assert(w[i0] == t[j + i0]);
    assert(qt <= j + i0 < qt + n);
    if j < qt {
        assert(w[qt - 1 - j] == t[qt - 1]);
        assert(!is_ws(p[qt - 1 - j]));
    }
    if j + p.len() > qt + n {
        assert(w[qt + n - j] == t[qt + n]);
        assert(!is_ws(p[qt + n - j]));
    }
}

proof fn lemma_right_part(r: RelV)
    requires
        relation_ok(r),
    ensures
        ({
            let right = rel_stmt(r).subrange(tok_at(r) + relation_token(r.2).len(), rel_stmt(r).len() as int);
            let (to_raw, label) = match split_once(right, ":"@) {
                Some((t, l)) => (trim(t), trim(l)),
                None => (trim(right), Seq::<char>::empty()),
            };
            to_raw == right_card(r.5) + r.1 && label == r.3
        }),
{
    reveal_strlit(" ");
    reveal_strlit(" : ");
    reveal_strlit(":");
    reveal_strlit("\"");
    reveal_strlit("\" ");
    let t = rel_stmt(r);
    let tok = relation_token(r.2);
    let rc = right_card(r.5);
    let tl = rel_tail(r);
    let w = rc + r.1;
    assert(t =~= r.0 + left_card(r.4) + " "@ + tok + " "@ + w + tl);
    let right = t.subrange(tok_at(r) + tok.len(), t.len() as int);
    assert(right =~= " "@ + w + tl);
    lemma_right_end(r.1, r.5);
    assert(w.last() == r.1.last());
    assert(!is_ws(r.1[r.1.len() - 1]));
    let wl = w.len() as int;
    assert forall|j: int| 0 <= j < wl implies #[trigger] w[j] != ':' by {
        if j < rc.len() {
            if let Some(y) = r.5 {
                if 1 <= j < 1 + y.len() {
                    assert(rc[j] == y[j - 1]);
                }
            }
        } else {
            assert(w[j] == r.1[j - rc.len()]);
        }
    }
    assert forall|j: int| 0 <= j < wl + 2 implies !occurs_at(right, ":"@, j) by {
        if occurs_at(right, ":"@, j) {
            assert(right.subrange(j, j + 1)[0] == right[j]);
            if 1 <= j < wl + 1 {
                assert(right[j] == w[j - 1]);
            }
        }
    }
    if r.3.len() == 0 {
        assert(right =~= " "@ + w);
        assert forall|j: int| 0 <= j implies !occurs_at(right, ":"@, j) by {
            if occurs_at(right, ":"@, j) {
                assert(right.subrange(j, j + 1)[0] == right[j]);
                assert(right[j] == w[j - 1]);
            }
        }
        lemma_find_absent(right, ":"@);
        lemma_trim_space_end(w);
    } else {
        assert(occurs_at(right, ":"@, wl + 2)) by {
            assert(right.subrange(wl + 2, wl + 3) =~= ":"@);
        }
        lemma_find_first(right, ":"@, wl + 2);
        let tt = right.subrange(0, wl + 2);
        assert(tt =~= " "@ + (w + " "@));
        assert((w + " "@)[0] == w[0]);
        lemma_trim_space_end(w);
        assert(tt[0] == ' ');
        assert(tt.drop_first() =~= w + " "@);
        assert(trim_start(tt) == trim_start(w + " "@));
        assert(trim_start(w + " "@) == w + " "@);
        assert(trim(tt) == trim(w + " "@));
        assert(right.subrange(wl + 3, right.len() as int) =~= " "@ + r.3);
        lemma_trim_space_end(r.3);
    }
}

proof fn lemma_relation_with_self(r: RelV)
    requires
        relation_ok(r),
    ensures
        relation_with(rel_stmt(r), r.2) == Some(Some(r)),
{
    reveal_strlit(" ");
    let t = rel_stmt(r);
    let tok = relation_token(r.2);
    let qt = tok_at(r);
    lemma_token_chars(r);
    lemma_token(r.2);
    assert(occurs_at(t, tok, qt));
    assert forall|j: int| 0 <= j < qt implies !occurs_at(t, tok, j) by {
        if occurs_at(t, tok, j) {
            lemma_tok_region(r, r.2, j);
        }
    }
    lemma_find_first(t, tok, qt);
    let lc = left_card(r.4);
    let al = r.0 + lc;
    assert(t.subrange(0, qt) =~= al + " "@);
    lemma_left_end(r.0, r.4);
    assert(al[0] == r.0[0]);
    assert(!is_ws(r.0[0]));
    assert(!is_ws(al.last())) by {
        if r.4 is None {
            assert(al =~= r.0);
            assert(!is_ws(r.0[r.0.len() - 1]));
        } else {
            reveal_strlit("\"");
            reveal_strlit(" \"");
            assert(al.last() == '"');
        }
    }
    lemma_trim_space_end(al);
    crate::text::lemma_trim_idempotent(al);
    lemma_right_part(r);
    lemma_right_end(r.1, r.5);
}

proof fn lemma_rel_from(r: RelV, k: int)
    requires
        relation_ok(r),
        0 <= k <= kind_idx(r.2),
    ensures
        relation_from(rel_stmt(r), k) == Some(r),
    decreases kind_idx(r.2) - k,
{
    lemma_order();
    let t = rel_stmt(r);
    if k == kind_idx(r.2) {
        assert(relation_order()[k] == r.2);
        lemma_relation_with_self(r);
    } else {
        let k2 = relation_order()[k];
        assert(kind_idx(k2) == k);
        lemma_token_chars(r);
        let tok2 = relation_token(k2);
        assert forall|j: int| 0 <= j implies !occurs_at(t, tok2, j) by {
            if occurs_at(t, tok2, j) {
                lemma_tok_region(r, k2, j);
                let o = j - tok_at(r);
                let whole = t.subrange(tok_at(r), tok_at(r) + relation_token(r.2).len());
                assert(whole.subrange(o, o + tok2.len()) =~= t.subrange(j, j + tok2.len()));
                lemma_earlier_not_inside(k2, r.2, o);
            }
        }
        lemma_find_absent(t, tok2);
        assert(relation_with(t, k2) is None);
        lemma_rel_from(r, k + 1);
    }
}

pub proof fn lemma_no_kw(t: Seq<char>, a: Seq<char>, kw: Seq<char>, w0: int)
    requires
        a.len() < t.len(),
        t.subrange(0, a.len() as int) == a,
        t[a.len() as int] == ' ',
        forall|j: int| 0 <= j < a.len() ==> !is_ws(#[trigger] a[j]),
        0 <= w0 < kw.len(),
        kw[w0] == ' ',
        forall|j: int| 0 <= j < w0 ==> !is_ws(#[trigger] kw[j]),
        a != kw.subrange(0, w0),
    ensures
        !kw.is_prefix_of(t),
{
    if kw.is_prefix_of(t) {
        let q = a.len() as int;
        if q > w0 {
            assert(t.subrange(0, kw.len() as int)[w0] == t[w0]);
            assert(t.subrange(0, q)[w0] == t[w0]);
        } else if q < w0 {
            assert(t.subrange(0, kw.len() as int)[q] == t[q]);
        } else {
            assert(a =~= kw.subrange(0, w0)) by {
                assert forall|j: int| 0 <= j < q implies a[j] == kw.subrange(0, w0)[j] by {
                    assert(t.subrange(0, q)[j] == t[j]);
                    assert(t.subrange(0, kw.len() as int)[j] == t[j]);
                }
            }
        }
    }
}

/// The standard test for alphanumeric characters says no to a space.
pub open spec fn space_not_alnum() -> bool {
    !alphanumeric(' ')
}

#[verifier::rlimit(40)]
proof fn lemma_rel_step(st: ClsSt, n: int, r: RelV)
    requires
        relation_ok(r),
        space_not_alnum(),
        st.body is None,
        has_class(st.d.classes, r.0),
        has_class(st.d.classes, r.1),
    ensures
        cls_step(st, n, rel_stmt(r)) == Ok::<ClsSt, (Seq<char>, Option<int>)>(
            ClsSt { d: ClassDiagramV { relations: st.d.relations.push(r), ..st.d }, ..st },
        ),
{
    reveal_strlit("class ");
    reveal_strlit("note for ");
    reveal_strlit("class");
    reveal_strlit("note");
    reveal_strlit(" : ");
    reveal_strlit(" ");
    reveal_strlit(" \"");
    reveal_strlit("\"");
    reveal_strlit("\" ");
    let t = rel_stmt(r);
    let a = r.0;
    let q = a.len() as int;
    lemma_token_chars(r);
    lemma_token(r.2);
    assert(t.subrange(0, q) =~= a);
    assert(t[q] == ' ');
    assert("class "@.subrange(0, 5) =~= "class"@);
    assert("note for "@.subrange(0, 4) =~= "note"@);
    lemma_no_kw(t, a, "class "@, 5);
    lemma_no_kw(t, a, "note for "@, 4);
    assert(strip_prefix(t, "class "@) is None);
    assert(class_note(t) is None);
    let tl = rel_tail(r);
    let f = t.len() - tl.len();
    assert forall|j: int| 0 <= j < f implies #[trigger] t[j] != ':' by {
        let lc = left_card(r.4);
        let rc = right_card(r.5);
        let tok = relation_token(r.2);
        assert(t =~= r.0 + lc + " "@ + tok + " "@ + (rc + r.1) + tl);
        if j < q {
            assert(t[j] == r.0[j]);
        } else if j < q + lc.len() {
            assert(t[j] == lc[j - q]);
            if let Some(x) = r.4 {
                if 2 <= j - q < 2 + x.len() {
                    assert(lc[j - q] == x[j - q - 2]);
                }
            }
        } else if tok_at(r) <= j < tok_at(r) + tok.len() {
            assert(t[j] == tok[j - tok_at(r)]);
        } else if j >= tok_at(r) + tok.len() + 1 {
            let c = tok_at(r) + tok.len() + 1;
            if j < c + rc.len() {
                assert(t[j] == rc[j - c]);
                if let Some(x) = r.5 {
                    if 1 <= j - c < 1 + x.len() {
                        assert(rc[j - c] == x[j - c - 1]);
                    }
                }
            } else {
                assert(t[j] == r.1[j - c - rc.len()]);
            }
        }
    }
    if r.3.len() == 0 {
        assert forall|j: int| 0 <= j implies !occurs_at(t, " : "@, j) by {
            if occurs_at(t, " : "@, j) {
                assert(t.subrange(j, j + 3)[1] == t[j + 1]);
            }
        }
        lemma_find_absent(t, " : "@);
    } else {
        assert(occurs_at(t, " : "@, f)) by {
            assert(t.subrange(f, f + 3) =~= " : "@);
        }
        assert forall|j: int| 0 <= j < f implies !occurs_at(t, " : "@, j) by {
            if occurs_at(t, " : "@, j) {
                assert(t.subrange(j, j + 3)[1] == t[j + 1]);
                if j + 1 < f {
                } else {
                    assert(t[f] == ' ');
                }
            }
        }
        lemma_find_first(t, " : "@, f);
        let left = t.subrange(0, f);
        assert(left[0] == a[0]);
        assert(!is_ws(a[0]));
        assert(left.last() == r.1.last());
        assert(!is_ws(r.1[r.1.len() - 1]));
        crate::text::lemma_trim_fixed(left);
        assert(left[tok_at(r) - 1] == ' ');
        assert(!member_id_char(trim(left)[tok_at(r) - 1]));
    }
    assert(member_annotation(t) is None);
    lemma_rel_from(r, 0);
    assert(relation_line(t) == Some(r));
    assert(ensure_class(st.d.classes, r.0) == st.d.classes);
    assert(ensure_class(st.d.classes, r.1) == st.d.classes);
}

proof fn lemma_csl_step(cs: Seq<ClassV>, k: int)
    requires
        0 <= k < cs.len(),
    ensures
        cls_stmt_lines(cs.take(k + 1)) == cls_stmt_lines(cs.take(k)) + cls_stmts(cs[k]),
{
    assert(cs.take(k + 1).drop_last() =~= cs.take(k));
    assert(cs.take(k + 1).last() == cs[k]);
}

proof fn lemma_csl_prefix(cs: Seq<ClassV>, m: int)
    requires
        0 <= m <= cs.len(),
    ensures
        cls_stmt_lines(cs.take(m)).len() <= cls_stmt_lines(cs).len(),
        forall|x: int| 0 <= x < cls_stmt_lines(cs.take(m)).len() ==> #[trigger] cls_stmt_lines(cs)[x] == cls_stmt_lines(
            cs.take(m),
        )[x],
    decreases cs.len(),
{
    if m == cs.len() {
        assert(cs.take(m) =~= cs);
    } else {
        let p = cs.drop_last();
        assert(p.take(m) =~= cs.take(m));
        lemma_csl_prefix(p, m);
        assert forall|x: int| 0 <= x < cls_stmt_lines(cs.take(m)).len() implies #[trigger] cls_stmt_lines(cs)[x]
            == cls_stmt_lines(cs.take(m))[x] by {
            assert(cls_stmt_lines(cs)[x] == cls_stmt_lines(p)[x]);
        }
    }
}

pub open spec fn cls_start(cs: Seq<ClassV>, k: int) -> int {
    1 + cls_stmt_lines(cs.take(k)).len() as int
}

pub open spec fn before_class(d: ClassDiagramV, k: int) -> ClsSt {
    ClsSt {
        d: ClassDiagramV { classes: d.classes.take(k), relations: Seq::empty(), notes: Seq::empty() },
        body: None,
    }
}

proof fn lemma_members_run(
    d: ClassDiagramV,
    ks: Seq<(int, Seq<char>)>,
    k: int,
    p: int,
    m: int,
)
    requires
        plain_class(d),
        0 <= k < d.classes.len(),
        d.classes[k].1.len() > 0,
        0 <= m <= d.classes[k].1.len(),
        1 <= p,
        p + cls_stmts(d.classes[k]).len() <= ks.len(),
        forall|x: int| 0 <= x < cls_stmts(d.classes[k]).len() ==> (#[trigger] ks[p + x]).1 == cls_stmts(d.classes[k])[x],
        !has_class(d.classes.take(k), d.classes[k].0),
    ensures
        cls_run(
            ks,
            p + 1 + m,
            ClsSt {
                d: ClassDiagramV {
                    classes: d.classes.take(k).push((d.classes[k].0, d.classes[k].1.take(m), d.classes[k].2)),
                    relations: Seq::empty(),
                    notes: Seq::empty(),
                },
                body: Some(d.classes[k].0),
            },
        ) == cls_run(ks, p + cls_stmts(d.classes[k]).len(), before_class(d, k + 1)),
    decreases d.classes[k].1.len() - m,
{
    reveal_strlit("}");
    let c = d.classes[k];
    let n = c.1.len() as int;
    let cs = d.classes.take(k);
    let st = ClsSt {
        d: ClassDiagramV { classes: cs.push((c.0, c.1.take(m), c.2)), relations: Seq::empty(), notes: Seq::empty() },
        body: Some(c.0),
    };
    let i = p + 1 + m;
    assert(ks[p + (1 + m)].1 == cls_stmts(c)[1 + m]);
    assert(d.classes.take(k + 1) =~= cs.push(c));
    if m == n {
        assert(cls_stmts(c)[1 + n] == "}"@);
        assert(c.1.take(n) =~= c.1);
        assert(cls_step(st, ks[i].0, ks[i].1) == Ok::<ClsSt, (Seq<char>, Option<int>)>(ClsSt { body: None, ..st }));
        assert(ClsSt { body: None, ..st } == before_class(d, k + 1));
        assert(i + 1 == p + cls_stmts(c).len());
    } else {
        let mm = c.1[m];
        assert(class_ok(c));
        assert(member_ok(mm));
        assert(cls_stmts(c)[1 + m] == mm);
        lemma_member_step(st, ks[i].0, cs, (c.0, c.1.take(m), c.2), mm);
        assert(c.1.take(m).push(mm) =~= c.1.take(m + 1));
        lemma_members_run(d, ks, k, p, m + 1);
    }
}

#[verifier::rlimit(40)]
proof fn lemma_run_classes(d: ClassDiagramV, ks: Seq<(int, Seq<char>)>, k: int)
    requires
        plain_class(d),
        ks == Seq::new(class_stmts(d).len(), |i: int| (i + 1, class_stmts(d)[i])),
        0 <= k <= d.classes.len(),
    ensures
        cls_run(ks, cls_start(d.classes, k), before_class(d, k)) == cls_run(
            ks,
            cls_start(d.classes, d.classes.len() as int),
            before_class(d, d.classes.len() as int),
        ),
    decreases d.classes.len() - k,
{
    let cs = d.classes;
    if k < cs.len() {
        let t = class_stmts(d);
        let p = cls_start(cs, k);
        let c = cs[k];
        assert(class_ok(c));
        lemma_csl_step(cs, k);
        lemma_csl_prefix(cs, k + 1);
        let lk = cls_stmt_lines(cs.take(k)).len() as int;
        let n = cls_stmts(c).len() as int;
        assert(p + n == cls_start(cs, k + 1));
        assert(t.len() == 1 + cls_stmt_lines(cs).len() + d.relations.len());
        assert forall|x: int| 0 <= x < n implies (#[trigger] ks[p + x]).1 == cls_stmts(c)[x] by {
            assert(ks[p + x].1 == t[p + x]);
            assert(t[p + x] == cls_stmt_lines(cs)[lk + x]);
            assert(cls_stmt_lines(cs)[lk + x] == cls_stmt_lines(cs.take(k + 1))[lk + x]);
        }
        assert(!has_class(cs.take(k), c.0)) by {
            if has_class(cs.take(k), c.0) {
                let i = choose|i: int| 0 <= i < cs.take(k).len() && (#[trigger] cs.take(k)[i]).0 == c.0;
                assert(cs[i].0 == cs[k].0);
            }
        }
        let st = before_class(d, k);
        assert(ks[p + 0].1 == cls_stmts(c)[0]);
        assert(cls_stmts(c)[0] == cls_head(c));
        lemma_class_step(st, ks[p].0, c);
        assert(cs.take(k + 1) =~= cs.take(k).push(c));
        if c.1.len() == 0 {
            assert(c.1 =~= Seq::<Seq<char>>::empty());
            assert(n == 1);
        } else {
            assert(c.1.take(0) =~= Seq::<Seq<char>>::empty());
            lemma_members_run(d, ks, k, p, 0);
        }
        lemma_run_classes(d, ks, k + 1);
    }
}

#[verifier::rlimit(40)]
proof fn lemma_run_relations(d: ClassDiagramV, ks: Seq<(int, Seq<char>)>, k: int)
    requires
        plain_class(d),
        space_not_alnum(),
        ks == Seq::new(class_stmts(d).len(), |i: int| (i + 1, class_stmts(d)[i])),
        0 <= k <= d.relations.len(),
    ensures
        cls_run(
            ks,
            cls_start(d.classes, d.classes.len() as int) + k,
            ClsSt {
                d: ClassDiagramV { classes: d.classes, relations: d.relations.take(k), notes: Seq::empty() },
                body: None,
            },
        ) == Ok::<ClsSt, (Seq<char>, Option<int>)>(
            ClsSt { d: ClassDiagramV { classes: d.classes, relations: d.relations, notes: Seq::empty() }, body: None },
        ),
    decreases d.relations.len() - k,
{
    let cs = d.classes;
    let rs = d.relations;
    let t = class_stmts(d);
    assert(cs.take(cs.len() as int) =~= cs);
    let i = cls_start(cs, cs.len() as int) + k;
    assert(t.len() == 1 + cls_stmt_lines(cs).len() + rs.len());
    if k == rs.len() {
        assert(rs.take(k) =~= rs);
    } else {
        let r = rs[k];
        assert(relation_ok(r));
        assert(ks[i].1 == t[i]);
        assert(t[i] == rel_stmt(r));
        let st = ClsSt {
            d: ClassDiagramV { classes: cs, relations: rs.take(k), notes: Seq::empty() },
            body: None,
        };
        assert(has_id(d, r.0) && has_id(d, r.1));
        assert(has_class(cs, r.0));
        assert(has_class(cs, r.1));
        lemma_rel_step(st, ks[i].0, r);
        assert(rs.take(k).push(r) =~= rs.take(k + 1));
        lemma_run_relations(d, ks, k + 1);
    }
}

/// The Mermaid text that the writer prints for a class diagram of classes
/// and relations reads back as that diagram: its classes (id, members in
/// order, stereotype) in order and its relations (ends, kind, label,
/// cardinalities) in order, where class ids are distinct, relations join
/// its classes, ids, members, stereotypes, cardinalities and labels are
/// taken by the reader as they stand (no quote, colon, brace, `-`, `<`, `>`
/// or `|` in ids, cardinalities and labels; members neither start with `<`
/// nor end with `}`), the diagram has no notes, and the standard test for
/// alphanumeric characters says no to a space (as for any ASCII text).
pub proof fn law_class_mermaid_reads_back(d: ClassDiagramV)
    requires
        plain_class(d),
    ensures
        space_not_alnum() ==> class_parse(class_mermaid(d)) == Ok::<ClassDiagramV, (Seq<char>, Option<int>)>(d),
{
    if space_not_alnum() {
        reveal_strlit("classDiagram");
        lemma_class_text_all(d);
        let t = class_stmts(d);
        let ks = Seq::new(t.len(), |i: int| (i + 1, t[i]));
        assert(ks[0].1 == "classDiagram"@);
        assert("classDiagram"@.is_prefix_of(ks[0].1)) by {
            assert(ks[0].1.subrange(0, 12) =~= "classDiagram"@);
        }
        let cs = d.classes;
        assert(cs.take(0) =~= Seq::<ClassV>::empty());
        assert(cls_stmt_lines(cs.take(0)) =~= Seq::<Seq<char>>::empty());
        assert(cls_start(cs, 0) == 1);
        assert(before_class(d, 0) == empty_cls_st());
        lemma_run_classes(d, ks, 0);
        assert(cs.take(cs.len() as int) =~= cs);
        lemma_run_relations(d, ks, 0);
        assert(d.relations.take(0) =~= Seq::<RelV>::empty());
        assert(cls_start(cs, cs.len() as int) + 0 == cls_start(cs, cs.len() as int));
        assert(d.notes =~= Seq::<(Seq<char>, Seq<char>)>::empty());
    }
}

} // verus!
