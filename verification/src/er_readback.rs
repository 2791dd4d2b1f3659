//! Read-after-write law for ER diagrams: the Mermaid text that the writer
//! prints for entities with attributes and for relationships reads back as
//! the same diagram.

use vstd::prelude::*;
use crate::er::{
    all_word, attr_line, attribute, block, block_attrs, bare_text, card_left, card_right, entity_block_start,
    entity_text, er_mermaid, er_parse, er_run, er_step, has_flag, left_card, rel_op, rel_ops, rel_text, relationship,
    right_card, sort_entities, split_rel_from, str_lt, trim_end_braces, AttrV, Cardinality, EntityV, ErDiagramV, ErSt,
    RelV,
};
use crate::readback::{
    lemma_find_absent, lemma_find_first, lemma_flat_append, lemma_flat_front, nl_text, one_line,
};
use crate::seq_readback::{
    lemma_lines_nl, lemma_numbered_all,
};
use crate::state::{
    assoc_default, assoc_insert, key_pos, keys_of, lemma_key_pos_from,
};
use crate::text::{
    find, first, flat, is_ws, keep_content, kept_numbered, lemma_first_from, lines, occurs_at, split_char, trim,
    trim_end, trim_start, uppercase, words,
};

verus! {

/// A word the ER reader takes as it stands: not empty, not starting with `%`,
/// with no whitespace, brace, bar, colon or dot, and no `--`.
pub open spec fn er_word(w: Seq<char>) -> bool {
    &&& w.len() > 0
    &&& w[0] != '%'
    &&& forall|j: int| 0 <= j < w.len() ==> !is_ws(#[trigger] w[j]) && w[j] != '{' && w[j] != '}' && w[j] != '|'
        && w[j] != ':' && w[j] != '.'
    &&& forall|j: int| 0 <= j < w.len() - 1 ==> !(#[trigger] w[j] == '-' && w[j + 1] == '-')
}

/// A relationship label the reader takes as it stands: one line with no
/// whitespace at either end, no brace or bar, and no `--`.
pub open spec fn er_label(l: Seq<char>) -> bool {
    &&& l.len() == 0 || (!is_ws(l[0]) && !is_ws(l.last()))
    &&& forall|j: int| 0 <= j < l.len() ==> #[trigger] l[j] != '\n' && l[j] != '{' && l[j] != '}' && l[j] != '|'
    &&& forall|j: int| 0 <= j < l.len() - 1 ==> !(#[trigger] l[j] == '-' && l[j + 1] == '-')
}

pub open spec fn attr_ok(a: AttrV) -> bool {
    er_word(a.0) && er_word(a.1)
}

pub open spec fn entity_ok(e: EntityV) -> bool {
    &&& er_word(e.0)
    &&& all_word(e.0)
    &&& e.1.len() > 0
    &&& forall|k: int| 0 <= k < e.1.len() ==> attr_ok(#[trigger] e.1[k])
}

pub open spec fn rel_ok(r: RelV) -> bool {
    er_word(r.0) && er_word(r.1) && er_label(r.5)
}

pub open spec fn has_entity(d: ErDiagramV, id: Seq<char>) -> bool {
    exists|a: int| 0 <= a < d.entities.len() && (#[trigger] d.entities[a]).0 == id
}

/// An ER diagram whose entities each have attributes and come in order of
/// their ids, whose relationships join its entities, and whose words and
/// labels the reader takes as they stand.
pub open spec fn plain_er(d: ErDiagramV) -> bool {
    &&& forall|k: int| 0 <= k < d.entities.len() ==> entity_ok(#[trigger] d.entities[k])
    &&& forall|a: int, b: int| 0 <= a < b < d.entities.len() ==> str_lt(
        (#[trigger] d.entities[a]).0,
        (#[trigger] d.entities[b]).0,
    )
    &&& forall|k: int| 0 <= k < d.relationships.len() ==> rel_ok(#[trigger] d.relationships[k]) && has_entity(
        d,
        d.relationships[k].0,
    ) && has_entity(d, d.relationships[k].1)
}

/// The key words of an attribute, in the order the writer prints them.
pub open spec fn flag_words(a: AttrV) -> Seq<Seq<char>> {
    (if a.2 {
        seq!["PK"@]
    } else {
        Seq::empty()
    }) + (if a.3 {
        seq!["FK"@]
    } else {
        Seq::empty()
    }) + (if a.4 {
        seq!["UK"@]
    } else {
        Seq::empty()
    })
}

pub open spec fn spaced(ws: Seq<Seq<char>>) -> Seq<char> {
    flat(ws, |x: Seq<char>| " "@ + x)
}

pub open spec fn attr_stmt(a: AttrV) -> Seq<char> {
    a.1 + spaced(seq![a.0] + flag_words(a))
}

pub open spec fn ent_stmts(e: EntityV) -> Seq<Seq<char>> {
    seq![e.0 + " {"@] + e.1.map_values(|a: AttrV| attr_stmt(a)) + seq!["}"@]
}

pub open spec fn ent_raw(e: EntityV) -> Seq<Seq<char>> {
    seq!["    "@ + e.0 + " {"@] + e.1.map_values(|a: AttrV| "        "@ + attr_stmt(a)) + seq!["    }"@]
}

pub open spec fn rel_stmt(r: RelV) -> Seq<char> {
    let op = card_left(r.2) + (if r.4 {
        "--"@
    } else {
        ".."@
    }) + card_right(r.3);
    if r.5.len() == 0 {
        r.0 + " "@ + op + " "@ + r.1
    } else {
        r.0 + " "@ + op + " "@ + r.1 + " : "@ + r.5
    }
}

pub open spec fn ent_lines(es: Seq<EntityV>) -> Seq<Seq<char>>
    decreases es.len(),
{
    if es.len() == 0 {
        Seq::empty()
    } else {
        ent_lines(es.drop_last()) + ent_raw(es.last())
    }
}

pub open spec fn ent_stmt_lines(es: Seq<EntityV>) -> Seq<Seq<char>>
    decreases es.len(),
{
    if es.len() == 0 {
        Seq::empty()
    } else {
        ent_stmt_lines(es.drop_last()) + ent_stmts(es.last())
    }
}

/// The lines the writer prints.
pub open spec fn er_raw(d: ErDiagramV) -> Seq<Seq<char>> {
    seq!["erDiagram"@] + ent_lines(d.entities) + d.relationships.map_values(|r: RelV| "    "@ + rel_stmt(r))
}

/// Those lines trimmed.
pub open spec fn er_stmts(d: ErDiagramV) -> Seq<Seq<char>> {
    seq!["erDiagram"@] + ent_stmt_lines(d.entities) + d.relationships.map_values(|r: RelV| rel_stmt(r))
}

pub proof fn lemma_trim_lead(pre: Seq<char>, core: Seq<char>)
    requires
        forall|j: int| 0 <= j < pre.len() ==> is_ws(#[trigger] pre[j]),
        core.len() > 0,
        !is_ws(core[0]),
        !is_ws(core.last()),
    ensures
        trim(pre + core) == core,
    decreases pre.len(),
{
    if pre.len() == 0 {
        assert(pre + core =~= core);
        crate::text::lemma_trim_fixed(core);
    } else {
        assert((pre + core)[0] == pre[0]);
        assert((pre + core).drop_first() =~= pre.drop_first() + core);
        assert(trim_start(pre + core) == trim_start(pre.drop_first() + core));
        assert forall|j: int| 0 <= j < pre.drop_first().len() implies is_ws(#[trigger] pre.drop_first()[j]) by {
            assert(pre.drop_first()[j] == pre[j + 1]);
        }
        lemma_trim_lead(pre.drop_first(), core);
    }
}

proof fn lemma_spaced_one(x: Seq<char>)
    ensures
        spaced(seq![x]) == " "@ + x,
{
    let s = seq![x];
    assert(s.drop_last().len() == 0);
    assert(flat(s.drop_last(), |y: Seq<char>| " "@ + y) == Seq::<char>::empty());
    assert(Seq::<char>::empty() + (" "@ + x) =~= " "@ + x);
}

proof fn lemma_spaced_append(a: Seq<Seq<char>>, b: Seq<Seq<char>>)
    ensures
        spaced(a + b) == spaced(a) + spaced(b),
{
    lemma_flat_append(a, b, |y: Seq<char>| " "@ + y);
}

proof fn lemma_opt_flag(b: bool, w: Seq<char>)
    ensures
        spaced(if b {
            seq![w]
        } else {
            Seq::<Seq<char>>::empty()
        }) == (if b {
            " "@ + w
        } else {
            Seq::<char>::empty()
        }),
{
    if b {
        lemma_spaced_one(w);
    } else {
        assert(flat(Seq::<Seq<char>>::empty(), |y: Seq<char>| " "@ + y) == Seq::<char>::empty());
    }
}

/// The printed attribute line, and its facts.
proof fn lemma_attr_text(a: AttrV)
    requires
        attr_ok(a),
    ensures
        attr_line(a) == "        "@ + attr_stmt(a) + "\n"@,
        attr_stmt(a).len() > 0,
        attr_stmt(a)[0] == a.1[0],
        !is_ws(attr_stmt(a).last()),
        forall|j: int| 0 <= j < attr_stmt(a).len() ==> #[trigger] attr_stmt(a)[j] != '\n',
{
    reveal_strlit(" PK");
    reveal_strlit(" FK");
    reveal_strlit(" UK");
    reveal_strlit(" ");
    reveal_strlit("PK");
    reveal_strlit("FK");
    reveal_strlit("UK");
    let pk = if a.2 { seq!["PK"@] } else { Seq::<Seq<char>>::empty() };
    let fk = if a.3 { seq!["FK"@] } else { Seq::<Seq<char>>::empty() };
    let uk = if a.4 { seq!["UK"@] } else { Seq::<Seq<char>>::empty() };
    lemma_spaced_append(seq![a.0] + (pk + fk), uk);
    lemma_spaced_append(seq![a.0] + pk, fk);
    lemma_spaced_append(seq![a.0], pk);
    lemma_spaced_one(a.0);
    lemma_opt_flag(a.2, "PK"@);
    lemma_opt_flag(a.3, "FK"@);
    lemma_opt_flag(a.4, "UK"@);
    assert(seq![a.0] + flag_words(a) =~= seq![a.0] + (pk + fk) + uk);
    assert(seq![a.0] + (pk + fk) =~= seq![a.0] + pk + fk);
    let fl = (if a.2 { " PK"@ } else { Seq::<char>::empty() }) + (if a.3 { " FK"@ } else { Seq::<char>::empty() }) + (
    if a.4 { " UK"@ } else { Seq::<char>::empty() });
    assert(" "@ + "PK"@ =~= " PK"@);
    assert(" "@ + "FK"@ =~= " FK"@);
    assert(" "@ + "UK"@ =~= " UK"@);
    let t = attr_stmt(a);
    assert(t =~= a.1 + " "@ + a.0 + fl);
    assert(attr_line(a) =~= "        "@ + t + "\n"@);
    assert(t[0] == a.1[0]);
    assert(!is_ws(a.0[a.0.len() - 1]));
    if a.4 {
        assert(t.last() == 'K');
    } else if a.3 {
        assert(t.last() == 'K');
    } else if a.2 {
        assert(t.last() == 'K');
    } else {
        assert(t.last() == a.0.last());
    }
    let o = a.1.len() + 1;
    assert forall|j: int| 0 <= j < t.len() implies #[trigger] t[j] != '\n' by {
        if j < a.1.len() {
            assert(t[j] == a.1[j]);
        } else if o <= j < o + a.0.len() {
            assert(t[j] == a.0[j - o]);
        }
    }
}

pub proof fn lemma_not_comment(t: Seq<char>)
    requires
        t.len() > 0,
        t[0] != '%',
    ensures
        keep_content(t),
{
    reveal_strlit("%%");
    if "%%"@.is_prefix_of(t) {
        assert(t.subrange(0, 2)[0] == t[0]);
    }
}

pub proof fn lemma_spaces()
    ensures
        forall|j: int| 0 <= j < "    "@.len() ==> is_ws(#[trigger] "    "@[j]),
        forall|j: int| 0 <= j < "        "@.len() ==> is_ws(#[trigger] "        "@[j]),
{
    reveal_strlit("    ");
    reveal_strlit("        ");
}

/// The lines the writer prints for an entity with attributes.
proof fn lemma_entity_text(e: EntityV)
    requires
        entity_ok(e),
    ensures
        entity_text(e) == nl_text(ent_raw(e)),
        ent_raw(e).len() == ent_stmts(e).len(),
        forall|x: int| 0 <= x < ent_raw(e).len() ==> one_line(#[trigger] ent_raw(e)[x]) && trim(ent_raw(e)[x])
            == ent_stmts(e)[x] && keep_content(ent_stmts(e)[x]),
{
    reveal_strlit("    ");
    reveal_strlit("        ");
    reveal_strlit(" {");
    reveal_strlit(" {\n");
    reveal_strlit("    }");
    reveal_strlit("    }\n");
    reveal_strlit("}");
    reveal_strlit("\n");
    lemma_spaces();
    let fa = |a: AttrV| attr_line(a);
    let ga = |a: AttrV| "        "@ + attr_stmt(a);
    assert forall|k: int| 0 <= k < e.1.len() implies fa(#[trigger] e.1[k]) == ga(e.1[k]) + "\n"@ by {
        lemma_attr_text(e.1[k]);
    }
    crate::readback::lemma_flat_map(e.1, fa, ga);
    let h = "    "@ + e.0 + " {"@;
    let c = "    }"@;
    let mid = e.1.map_values(ga);
    crate::readback::lemma_nl_append(seq![h] + mid, seq![c]);
    crate::readback::lemma_nl_append(seq![h], mid);
    crate::readback::lemma_nl_one(h);
    crate::readback::lemma_nl_one(c);
    assert(ent_raw(e) =~= seq![h] + mid + seq![c]);
    assert(entity_text(e) =~= (h + "\n"@) + nl_text(mid) + (c + "\n"@));
    let raw = ent_raw(e);
    let st = ent_stmts(e);
    let n = e.1.len() as int;
    assert forall|x: int| 0 <= x < raw.len() implies one_line(#[trigger] raw[x]) && trim(raw[x]) == st[x] && keep_content(
        st[x],
    ) by {
        if x == 0 {
            let t = e.0 + " {"@;
            assert(raw[0] == "    "@ + t);
            assert(t.last() == '{');
            assert(t[0] == e.0[0]);
            lemma_trim_lead("    "@, t);
            lemma_not_comment(t);
            assert forall|j: int| 0 <= j < raw[0].len() implies #[trigger] raw[0][j] != '\n' by {
                if 4 <= j < 4 + e.0.len() {
                    assert(raw[0][j] == e.0[j - 4]);
                }
            }
        } else if x <= n {
            let a = e.1[x - 1];
            assert(attr_ok(a));
            lemma_attr_text(a);
            let t = attr_stmt(a);
            assert(raw[x] == "        "@ + t);
            assert(st[x] == t);
            assert(!is_ws(a.1[0]));
            lemma_trim_lead("        "@, t);
            lemma_not_comment(t);
            assert forall|j: int| 0 <= j < raw[x].len() implies #[trigger] raw[x][j] != '\n' by {
                if 8 <= j {
                    assert(raw[x][j] == t[j - 8]);
                }
            }
        } else {
            assert(raw[x] == c);
            assert(st[x] == "}"@);
            lemma_trim_lead("    "@, "}"@);
            assert(c =~= "    "@ + "}"@);
            lemma_not_comment("}"@);
        }
    }
}

proof fn lemma_ent_lines(es: Seq<EntityV>)
    requires
        forall|k: int| 0 <= k < es.len() ==> entity_ok(#[trigger] es[k]),
    ensures
        flat(es, |e: EntityV| entity_text(e)) == nl_text(ent_lines(es)),
        ent_lines(es).len() == ent_stmt_lines(es).len(),
        forall|x: int| 0 <= x < ent_lines(es).len() ==> one_line(#[trigger] ent_lines(es)[x]) && trim(ent_lines(es)[x])
            == ent_stmt_lines(es)[x] && keep_content(ent_stmt_lines(es)[x]),
    decreases es.len(),
{
    if es.len() > 0 {
        let p = es.drop_last();
        assert forall|k: int| 0 <= k < p.len() implies entity_ok(#[trigger] p[k]) by {
            assert(p[k] == es[k]);
        }
        lemma_ent_lines(p);
        let e = es.last();
        assert(entity_ok(es[es.len() - 1]));
        lemma_entity_text(e);
        crate::readback::lemma_nl_append(ent_lines(p), ent_raw(e));
        let a = ent_lines(es);
        let b = ent_stmt_lines(es);
        let m = ent_lines(p).len() as int;
        assert forall|x: int| 0 <= x < a.len() implies one_line(#[trigger] a[x]) && trim(a[x]) == b[x] && keep_content(
            b[x],
        ) by {
            if x < m {
                assert(a[x] == ent_lines(p)[x]);
                assert(b[x] == ent_stmt_lines(p)[x]);
            } else {
                assert(a[x] == ent_raw(e)[x - m]);
                assert(b[x] == ent_stmts(e)[x - m]);
            }
        }
    } else {
        assert(nl_text(ent_lines(es)) == Seq::<char>::empty());
    }
}

proof fn lemma_bare_none(rels: Seq<RelV>, es: Seq<EntityV>)
    requires
        forall|k: int| 0 <= k < es.len() ==> (#[trigger] es[k]).1.len() > 0,
    ensures
        flat(es, |e: EntityV| bare_text(rels, e)) == Seq::<char>::empty(),
    decreases es.len(),
{
    if es.len() > 0 {
        let p = es.drop_last();
        assert forall|k: int| 0 <= k < p.len() implies (#[trigger] p[k]).1.len() > 0 by {
            assert(p[k] == es[k]);
        }
        lemma_bare_none(rels, p);
        assert(es[es.len() - 1].1.len() > 0);
        assert(bare_text(rels, es.last()) == Seq::<char>::empty());
        assert(Seq::<char>::empty() + Seq::<char>::empty() =~= Seq::<char>::empty());
    }
}

proof fn lemma_card_chars(c: Cardinality)
    ensures
        card_left(c).len() == 2,
        card_right(c).len() == 2,
        card_left(c)[0] == '|' || card_left(c)[0] == '}',
        card_left(c)[1] == '|' || card_left(c)[1] == 'o',
        card_right(c)[0] == '|' || card_right(c)[0] == 'o',
        card_right(c)[1] == '|' || card_right(c)[1] == '{',
{
    reveal_strlit("||");
    reveal_strlit("|o");
    reveal_strlit("}o");
    reveal_strlit("}|");
    reveal_strlit("o|");
    reveal_strlit("o{");
    reveal_strlit("|{");
}

/// The relationship operator printed between the two ends.
pub open spec fn rel_opr(r: RelV) -> Seq<char> {
    card_left(r.2) + (if r.4 {
        "--"@
    } else {
        ".."@
    }) + card_right(r.3)
}

proof fn lemma_opr_chars(r: RelV)
    ensures
        rel_opr(r).len() == 6,
        forall|j: int| 0 <= j < 6 ==> !is_ws(#[trigger] rel_opr(r)[j]),
        rel_opr(r)[2] == rel_opr(r)[3],
        rel_opr(r)[2] == (if r.4 { '-' } else { '.' }),
        rel_opr(r)[0] == card_left(r.2)[0],
        rel_opr(r)[1] == card_left(r.2)[1],
        rel_opr(r)[4] == card_right(r.3)[0],
        rel_opr(r)[5] == card_right(r.3)[1],
{
    reveal_strlit("--");
    reveal_strlit("..");
    lemma_card_chars(r.2);
    lemma_card_chars(r.3);
}

proof fn lemma_rel_text(r: RelV)
    requires
        rel_ok(r),
    ensures
        rel_text(r) == "    "@ + rel_stmt(r) + "\n"@,
        one_line("    "@ + rel_stmt(r)),
        trim("    "@ + rel_stmt(r)) == rel_stmt(r),
        keep_content(rel_stmt(r)),
        rel_stmt(r) == r.0 + " "@ + rel_opr(r) + " "@ + r.1 + (if r.5.len() == 0 {
            Seq::<char>::empty()
        } else {
            " : "@ + r.5
        }),
{
    reveal_strlit("    ");
    reveal_strlit(" ");
    reveal_strlit(" : ");
    reveal_strlit("\n");
    lemma_spaces();
    lemma_opr_chars(r);
    let op = rel_opr(r);
    let t = rel_stmt(r);
    let tail = if r.5.len() == 0 {
        Seq::<char>::empty()
    } else {
        " : "@ + r.5
    };
    assert(t =~= r.0 + " "@ + op + " "@ + r.1 + tail);
    assert(rel_text(r) =~= "    "@ + t + "\n"@);
    assert(t[0] == r.0[0]);
    assert(!is_ws(r.0[0]));
    if r.5.len() == 0 {
        assert(t.last() == r.1.last());
        assert(!is_ws(r.1[r.1.len() - 1]));
    } else {
        assert(t.last() == r.5.last());
    }
    lemma_trim_lead("    "@, t);
    lemma_not_comment(t);
    let l = "    "@ + t;
    let q = r.0.len() as int;
    let b = q + 8;
    assert forall|j: int| 0 <= j < l.len() implies #[trigger] l[j] != '\n' by {
        let k = j - 4;
        if 0 <= k < q {
            assert(l[j] == r.0[k]);
        } else if q + 1 <= k < q + 7 {
            assert(l[j] == op[k - q - 1]);
        } else if b <= k < b + r.1.len() {
            assert(l[j] == r.1[k - b]);
        } else if r.5.len() > 0 && b + r.1.len() + 3 <= k {
            assert(l[j] == r.5[k - b - r.1.len() - 3]);
        }
    }
}

proof fn lemma_er_text(d: ErDiagramV)
    requires
        plain_er(d),
    ensures
        er_raw(d).len() == er_stmts(d).len(),
        kept_numbered(lines(er_mermaid(d)), |l: Seq<char>| keep_content(l)) == Seq::new(
            er_raw(d).len(),
            |i: int| (i + 1, er_stmts(d)[i]),
        ),
{
    reveal_strlit("erDiagram\n");
    reveal_strlit("erDiagram");
    reveal_strlit("\n");
    let es = d.entities;
    let rs = d.relationships;
    lemma_ent_lines(es);
    assert forall|k: int| 0 <= k < es.len() implies (#[trigger] es[k]).1.len() > 0 by {
        assert(entity_ok(es[k]));
    }
    lemma_bare_none(rs, es);
    let fr = |r: RelV| rel_text(r);
    let gr = |r: RelV| "    "@ + rel_stmt(r);
    assert forall|k: int| 0 <= k < rs.len() implies fr(#[trigger] rs[k]) == gr(rs[k]) + "\n"@ by {
        assert(rel_ok(rs[k]));
        lemma_rel_text(rs[k]);
    }
    crate::readback::lemma_flat_map(rs, fr, gr);
    let h = seq!["erDiagram"@];
    let el = ent_lines(es);
    let rl = rs.map_values(gr);
    crate::readback::lemma_nl_one("erDiagram"@);
    crate::readback::lemma_nl_append(h + el, rl);
    crate::readback::lemma_nl_append(h, el);
    let raw = er_raw(d);
    assert(raw =~= h + el + rl);
    assert(er_mermaid(d) =~= nl_text(h) + nl_text(el) + nl_text(rl) + Seq::<char>::empty());
    let st = er_stmts(d);
    let m = el.len() as int;
    assert forall|i: int| 0 <= i < raw.len() implies one_line(#[trigger] raw[i]) && trim(raw[i]) == st[i] && keep_content(
        st[i],
    ) by {
        if i == 0 {
            assert(raw[0] == "erDiagram"@);
            assert(st[0] == "erDiagram"@);
            crate::text::lemma_trim_fixed(raw[0]);
            lemma_not_comment(st[0]);
        } else if i <= m {
            assert(raw[i] == el[i - 1]);
            assert(st[i] == ent_stmt_lines(es)[i - 1]);
        } else {
            let k = i - 1 - m;
            assert(rel_ok(rs[k]));
            lemma_rel_text(rs[k]);
            assert(raw[i] == "    "@ + rel_stmt(rs[k]));
            assert(st[i] == rel_stmt(rs[k]));
        }
    }
    lemma_lines_nl(raw);
    lemma_numbered_all(raw, st);
}

/// A word with no whitespace, not empty.
pub open spec fn solid(w: Seq<char>) -> bool {
    w.len() > 0 && forall|j: int| 0 <= j < w.len() ==> !is_ws(#[trigger] w[j])
}

proof fn lemma_words_spaced(w: Seq<char>, ws: Seq<Seq<char>>)
    requires
        solid(w),
        forall|k: int| 0 <= k < ws.len() ==> solid(#[trigger] ws[k]),
    ensures
        words(w + spaced(ws)) == seq![w] + ws,
    decreases ws.len(),
{
    reveal_strlit(" ");
    let s = w + spaced(ws);
    assert(s[0] == w[0]);
    assert(trim_start(s) == s);
    let isw = |c: char| is_ws(c);
    lemma_first_from(s, isw, 0);
    if ws.len() == 0 {
        assert(spaced(ws) == Seq::<char>::empty());
        assert(s =~= w);
        assert forall|j: int| 0 <= j < s.len() implies !isw(#[trigger] s[j]) by {
            assert(s[j] == w[j]);
        }
        assert(first(s, isw) is None);
        assert(s.subrange(0, s.len() as int) =~= w);
        assert(s.subrange(s.len() as int, s.len() as int) =~= Seq::<char>::empty());
        assert(words(Seq::<char>::empty()) == Seq::<Seq<char>>::empty());
        assert(seq![w] + ws =~= seq![w]);
    } else {
        lemma_flat_front(ws, |x: Seq<char>| " "@ + x);
        let rest = ws[0] + spaced(ws.drop_first());
        assert(spaced(ws) == " "@ + ws[0] + spaced(ws.drop_first()));
        assert(s =~= w + " "@ + rest);
        let q = w.len() as int;
        assert(s[q] == ' ');
        assert forall|j: int| 0 <= j < q implies !isw(#[trigger] s[j]) by {
            assert(s[j] == w[j]);
        }
        assert(first(s, isw) == Some(q));
        assert(s.subrange(0, q) =~= w);
        let r1 = s.subrange(q, s.len() as int);
        assert(r1 =~= " "@ + rest);
        assert(r1.drop_first() =~= rest);
        assert(trim_start(r1) == trim_start(rest));
        assert forall|k: int| 0 <= k < ws.drop_first().len() implies solid(#[trigger] ws.drop_first()[k]) by {
            assert(ws.drop_first()[k] == ws[k + 1]);
        }
        assert(solid(ws[0]));
        lemma_words_spaced(ws[0], ws.drop_first());
        assert(rest[0] == ws[0][0]);
        assert(trim_start(rest) == rest);
        assert(words(r1) == words(rest));
        assert(seq![w] + (seq![ws[0]] + ws.drop_first()) =~= seq![w] + ws);
    }
}

/// What the standard upper-casing gives for the three key words: each
/// unchanged, as for any ASCII text.
pub open spec fn keys_upper() -> bool {
    &&& uppercase("PK"@) == "PK"@
    &&& uppercase("FK"@) == "FK"@
    &&& uppercase("UK"@) == "UK"@
}

proof fn lemma_attribute(a: AttrV)
    requires
        attr_ok(a),
        keys_upper(),
    ensures
        attribute(attr_stmt(a)) == Ok::<AttrV, Seq<char>>(a),
{
    reveal_strlit("PK");
    reveal_strlit("FK");
    reveal_strlit("UK");
    let fw = flag_words(a);
    let ws = seq![a.0] + fw;
    assert forall|k: int| 0 <= k < ws.len() implies solid(#[trigger] ws[k]) by {
        if k == 0 {
            assert(ws[0] == a.0);
        } else {
            assert(ws[k] == fw[k - 1]);
        }
    }
    lemma_words_spaced(a.1, ws);
    let ps = words(attr_stmt(a));
    assert(ps =~= seq![a.1, a.0] + fw);
    assert(ps.len() >= 2);
    let n2 = if a.2 { 1int } else { 0 };
    let n3 = if a.3 { 1int } else { 0 };
    assert forall|i: int| 2 <= i < ps.len() implies (#[trigger] ps[i] == "PK"@ && a.2 && i == 2) || (ps[i] == "FK"@ && a.3
        && i == 2 + n2) || (ps[i] == "UK"@ && a.4 && i == 2 + n2 + n3) by {
        assert(ps[i] == fw[i - 2]);
    }
    assert("PK"@ != "FK"@) by {
        assert("PK"@[0] != "FK"@[0]);
    }
    assert("PK"@ != "UK"@) by {
        assert("PK"@[0] != "UK"@[0]);
    }
    assert("FK"@ != "UK"@) by {
        assert("FK"@[0] != "UK"@[0]);
    }
    if a.2 {
        assert(ps[2] == "PK"@);
        assert(has_flag(ps, "PK"@));
    } else {
        assert(!has_flag(ps, "PK"@));
    }
    if a.3 {
        assert(ps[2 + n2] == "FK"@);
        assert(has_flag(ps, "FK"@));
    } else {
        assert(!has_flag(ps, "FK"@));
    }
    if a.4 {
        assert(ps[2 + n2 + n3] == "UK"@);
        assert(has_flag(ps, "UK"@));
    } else {
        assert(!has_flag(ps, "UK"@));
    }
}

proof fn lemma_block_attrs(ls: Seq<(int, Seq<char>)>, p: int, e: EntityV, m: int, n0: int)
    requires
        entity_ok(e),
        keys_upper(),
        0 <= p,
        0 <= m <= e.1.len(),
        p + ent_stmts(e).len() <= ls.len(),
        forall|x: int| 0 <= x < ent_stmts(e).len() ==> (#[trigger] ls[p + x]).1 == ent_stmts(e)[x],
    ensures
        block_attrs(ls, p + 1 + m, e.0, e.1.take(m), n0) == Ok::<(EntityV, int), (Seq<char>, Option<int>)>(
            ((e.0, e.1), p + ent_stmts(e).len()),
        ),
    decreases e.1.len() - m,
{
    reveal_strlit("}");
    let n = e.1.len() as int;
    let j = p + 1 + m;
    let st = ent_stmts(e);
    assert(ls[p + (1 + m)].1 == st[1 + m]);
    assert(p + (1 + m) == j);
    if m == n {
        assert(st[1 + n] == "}"@);
        assert(e.1.take(n) =~= e.1);
    } else {
        let a = e.1[m];
        assert(attr_ok(a));
        assert(st[1 + m] == attr_stmt(a));
        lemma_attr_text(a);
        assert(a.1[0] != '}');
        lemma_attribute(a);
        assert(e.1.take(m).push(a) =~= e.1.take(m + 1));
        lemma_block_attrs(ls, p, e, m + 1, n0);
        assert(p + 1 + (m + 1) == j + 1);
    }
}

pub proof fn lemma_trim_space_end(w: Seq<char>)
    requires
        w.len() > 0,
        !is_ws(w[0]),
        !is_ws(w.last()),
    ensures
        trim(w + " "@) == w,
        trim(" "@ + w) == w,
{
    reveal_strlit(" ");
    let a = w + " "@;
    assert(trim_start(a) == a);
    assert(a.drop_last() =~= w);
    assert(trim_end(a) == trim_end(w));
    assert(trim_end(w) == w);
    let b = " "@ + w;
    assert(b.drop_first() =~= w);
    assert(trim_start(b) == trim_start(w));
    assert(trim_start(w) == w);
}

proof fn lemma_no_pair(t: Seq<char>, c: char, pat: Seq<char>)
    requires
        pat.len() == 2,
        pat[0] == c,
        pat[1] == c,
        forall|j: int| 0 <= j < t.len() - 1 ==> !(#[trigger] t[j] == c && t[j + 1] == c),
    ensures
        find(t, pat) is None,
{
    assert forall|j: int| 0 <= j implies !occurs_at(t, pat, j) by {
        if occurs_at(t, pat, j) {
            assert(t.subrange(j, j + 2)[0] == t[j]);
            assert(t.subrange(j, j + 2)[1] == t[j + 1]);
        }
    }
    lemma_find_absent(t, pat);
}

/// An entity's block reads back as the entity, and the reader goes on after it.
proof fn lemma_block(ls: Seq<(int, Seq<char>)>, p: int, e: EntityV)
    requires
        entity_ok(e),
        keys_upper(),
        0 <= p,
        p + ent_stmts(e).len() <= ls.len(),
        forall|x: int| 0 <= x < ent_stmts(e).len() ==> (#[trigger] ls[p + x]).1 == ent_stmts(e)[x],
    ensures
        entity_block_start(ls[p].1),
        block(ls, p) == Ok::<(EntityV, int), (Seq<char>, Option<int>)>(((e.0, e.1), p + ent_stmts(e).len())),
{
    reveal_strlit(" {");
    reveal_strlit("--");
    reveal_strlit("..");
    reveal_strlit(" ");
    let t = e.0 + " {"@;
    assert(ls[p + 0].1 == ent_stmts(e)[0]);
    assert(ls[p].1 == t);
    let q = e.0.len() as int;
    assert(t[0] == e.0[0]);
    assert(t.last() == '{');
    crate::text::lemma_trim_fixed(t);
    assert forall|j: int| 0 <= j < t.len() - 1 implies !(#[trigger] t[j] == '-' && t[j + 1] == '-') by {
        if j < q - 1 {
            assert(t[j] == e.0[j] && t[j + 1] == e.0[j + 1]);
        } else if j == q - 1 {
            assert(t[j + 1] == ' ');
        } else {
            assert(t[j] == ' ' || t[j] == '{');
        }
    }
    assert forall|j: int| 0 <= j < t.len() - 1 implies !(#[trigger] t[j] == '.' && t[j + 1] == '.') by {
        if j < q {
            assert(t[j] == e.0[j]);
        } else {
            assert(t[j] == ' ' || t[j] == '{');
        }
    }
    lemma_no_pair(t, '-', "--"@);
    lemma_no_pair(t, '.', ".."@);
    let w = e.0 + " "@;
    assert(t.drop_last() =~= w);
    assert(w.last() == ' ');
    assert(trim_end_braces(w) == w);
    assert(trim_end_braces(t) == w);
    lemma_trim_space_end(e.0);
    assert(!is_ws(e.0[q - 1]));
    assert(entity_block_start(t));
    crate::text::lemma_find_char_from(t, '{', 0);
    assert forall|j: int| 0 <= j < q + 1 implies t[j] != '{' by {
        if j < q {
            assert(t[j] == e.0[j]);
        }
    }
    assert(crate::text::find_char(t, '{') == Some(q + 1));
    assert(t.subrange(0, q + 1) =~= w);
    assert(split_char(t, '{')[0] == w);
    assert(!t.contains('}')) by {
        if t.contains('}') {
            let j = choose|j: int| 0 <= j < t.len() && t[j] == '}';
            if j < q {
                assert(t[j] == e.0[j]);
            }
        }
    }
    lemma_block_attrs(ls, p, e, 0, ls[p].0);
    assert(e.1.take(0) =~= Seq::<AttrV>::empty());
}

proof fn lemma_ops_chars()
    ensures
        rel_ops().len() == 8,
        forall|k: int| 0 <= k < 8 ==> (#[trigger] rel_ops()[k]).len() == 4 && (rel_ops()[k][0] == '|' || rel_ops()[k][0]
            == '}') && (rel_ops()[k][1] == '|' || rel_ops()[k][1] == 'o') && (rel_ops()[k][2] == '-' || rel_ops()[k][2]
            == '.') && rel_ops()[k][3] == rel_ops()[k][2],
{
    reveal_strlit("||--");
    reveal_strlit("|o--");
    reveal_strlit("}o--");
    reveal_strlit("}|--");
    reveal_strlit("||..");
    reveal_strlit("|o..");
    reveal_strlit("}o..");
    reveal_strlit("}|..");
}

proof fn lemma_left_card(c: Cardinality)
    ensures
        left_card(card_left(c)) == Some(c),
{
    reveal_strlit("||");
    reveal_strlit("|o");
    reveal_strlit("}o");
    reveal_strlit("}|");
    match c {
        Cardinality::One => {},
        Cardinality::ZeroOrOne => {
            assert("|o"@ != "||"@) by { assert("|o"@[1] != "||"@[1]); }
        },
        Cardinality::ZeroOrMore => {
            assert("}o"@ != "||"@) by { assert("}o"@[0] != "||"@[0]); }
            assert("}o"@ != "|o"@) by { assert("}o"@[0] != "|o"@[0]); }
        },
        Cardinality::OneOrMore => {
            assert("}|"@ != "||"@) by { assert("}|"@[0] != "||"@[0]); }
            assert("}|"@ != "|o"@) by { assert("}|"@[0] != "|o"@[0]); }
            assert("}|"@ != "}o"@) by { assert("}|"@[1] != "}o"@[1]); }
        },
    }
}

proof fn lemma_right_card(c: Cardinality, more: Seq<char>)
    ensures
        right_card(card_right(c) + more) == Some((c, more)),
{
    reveal_strlit("||");
    reveal_strlit("o|");
    reveal_strlit("o{");
    reveal_strlit("|{");
    let s = card_right(c) + more;
    assert(s.subrange(0, 2) =~= card_right(c));
    assert(s.subrange(2, s.len() as int) =~= more);
    assert(s[0] == card_right(c)[0] && s[1] == card_right(c)[1]);
    match c {
        Cardinality::One => {
            assert("||"@.is_prefix_of(s));
        },
        Cardinality::ZeroOrOne => {
            assert(!"||"@.is_prefix_of(s)) by { if "||"@.is_prefix_of(s) { assert(s.subrange(0, 2)[0] == s[0]); } }
            assert("o|"@.is_prefix_of(s));
        },
        Cardinality::ZeroOrMore => {
            assert(!"||"@.is_prefix_of(s)) by { if "||"@.is_prefix_of(s) { assert(s.subrange(0, 2)[0] == s[0]); } }
            assert(!"o|"@.is_prefix_of(s)) by { if "o|"@.is_prefix_of(s) { assert(s.subrange(0, 2)[1] == s[1]); } }
            assert("o{"@.is_prefix_of(s));
        },
        Cardinality::OneOrMore => {
            assert(!"||"@.is_prefix_of(s)) by { if "||"@.is_prefix_of(s) { assert(s.subrange(0, 2)[1] == s[1]); } }
            assert(!"o|"@.is_prefix_of(s)) by { if "o|"@.is_prefix_of(s) { assert(s.subrange(0, 2)[0] == s[0]); } }
            assert(!"o{"@.is_prefix_of(s)) by { if "o{"@.is_prefix_of(s) { assert(s.subrange(0, 2)[0] == s[0]); } }
            assert("|{"@.is_prefix_of(s));
        },
    }
}

proof fn lemma_split_rel(t: Seq<char>, k: int, at: int)
    requires
        0 <= k < 8,
        0 <= at <= t.len(),
        forall|k2: int, j: int| k <= k2 < 8 && #[trigger] occurs_at(t, rel_ops()[k2], j) ==> j == at,
        exists|k2: int| k <= k2 < 8 && occurs_at(t, #[trigger] rel_ops()[k2], at),
    ensures
        split_rel_from(t, k) == Some((t.subrange(0, at), t.subrange(at, t.len() as int))),
    decreases 8 - k,
{
    crate::text::lemma_find_from(t, rel_ops()[k], 0);
    match find(t, rel_ops()[k]) {
        Some(idx) => {
            assert(occurs_at(t, rel_ops()[k], idx));
        },
        None => {
            if occurs_at(t, rel_ops()[k], at) {
                assert(false);
            }
            let k2 = choose|k2: int| k <= k2 < 8 && occurs_at(t, #[trigger] rel_ops()[k2], at);
            assert(k2 != k);
            lemma_split_rel(t, k + 1, at);
        },
    }
}

pub open spec fn rel_tail(r: RelV) -> Seq<char> {
    if r.5.len() == 0 {
        Seq::<char>::empty()
    } else {
        " : "@ + r.5
    }
}

/// In a printed relationship line an operator occurs only where it was printed.
#[verifier::rlimit(40)]
proof fn lemma_ops_only_at(r: RelV)
    requires
        rel_ok(r),
    ensures
        forall|k2: int, j: int| 0 <= k2 < 8 && #[trigger] occurs_at(rel_stmt(r), rel_ops()[k2], j) ==> j == r.0.len() as int + 1,
        exists|k2: int| 0 <= k2 < 8 && occurs_at(rel_stmt(r), #[trigger] rel_ops()[k2], r.0.len() as int + 1),
{
    reveal_strlit(" ");
    reveal_strlit(" : ");
    reveal_strlit("||--");
    reveal_strlit("|o--");
    reveal_strlit("}o--");
    reveal_strlit("}|--");
    reveal_strlit("||..");
    reveal_strlit("|o..");
    reveal_strlit("}o..");
    reveal_strlit("}|..");
    reveal_strlit("||");
    reveal_strlit("|o");
    reveal_strlit("}o");
    reveal_strlit("}|");
    reveal_strlit("--");
    reveal_strlit("..");
    lemma_rel_text(r);
    lemma_ops_chars();
    lemma_opr_chars(r);
    let t = rel_stmt(r);
    let op = rel_opr(r);
    let q = r.0.len() as int;
    let b = q + 8;
    let tl = rel_tail(r);
    assert(t =~= r.0 + " "@ + op + " "@ + r.1 + tl);
    assert forall|k2: int, j: int| 0 <= k2 < 8 && #[trigger] occurs_at(t, rel_ops()[k2], j) implies j == q + 1 by {
        let p = rel_ops()[k2];
        let w = t.subrange(j, j + 4);
        assert(w[0] == t[j] && w[1] == t[j + 1] && w[2] == t[j + 2]);
        assert(t[j] == p[0] && t[j + 1] == p[1] && t[j + 2] == p[2]);
        if j < q {
            assert(t[j] == r.0[j]);
        } else if j == q {
            assert(t[j] == ' ');
        } else if j == q + 1 {
        } else if j < q + 7 {
            assert(t[j] == op[j - q - 1]);
            assert(t[j + 1] == (if j + 1 < q + 7 { op[j - q] } else { ' ' }));
            assert(t[q + 7] == ' ');
        } else if j == q + 7 {
            assert(t[j] == ' ');
        } else if j < b + r.1.len() {
            assert(t[j] == r.1[j - b]);
        } else {
            let k = j - b - r.1.len();
            assert(t[j] == tl[k]);
            if k >= 3 {
                assert(tl[k] == r.5[k - 3]);
            }
        }
    }
    let kk = (if r.4 { 0int } else { 4int }) + match r.2 {
        Cardinality::One => 0int,
        Cardinality::ZeroOrOne => 1int,
        Cardinality::ZeroOrMore => 2int,
        Cardinality::OneOrMore => 3int,
    };
    assert(t.subrange(q + 1, q + 5) =~= op.subrange(0, 4));
    assert(rel_ops()[kk] =~= op.subrange(0, 4));
    assert(occurs_at(t, rel_ops()[kk], q + 1));
}

#[verifier::rlimit(40)]
proof fn lemma_rel_op(r: RelV)
    requires
        rel_ok(r),
    ensures
        rel_op(rel_opr(r) + " "@ + r.1 + rel_tail(r)) == Some((r.4, r.2, r.3, " "@ + r.1 + rel_tail(r))),
{
    reveal_strlit(" ");
    reveal_strlit(" : ");
    reveal_strlit("--");
    reveal_strlit("..");
    lemma_opr_chars(r);
    lemma_card_chars(r.2);
    lemma_card_chars(r.3);
    let op = rel_opr(r);
    let tl = rel_tail(r);
    let rest = op + " "@ + r.1 + tl;
    let b = 7int;
    assert forall|j: int| 0 <= j < 2 implies rest[j] != '-' && rest[j] != '.' by {
        assert(rest[j] == op[j]);
        assert(op[j] == card_left(r.2)[j]);
    }
    let sep = if r.4 { "--"@ } else { ".."@ };
    assert(rest.subrange(2, 4) =~= sep);
    assert(occurs_at(rest, sep, 2));
    assert forall|j: int| 0 <= j < 2 implies !occurs_at(rest, sep, j) by {
        if occurs_at(rest, sep, j) {
            assert(rest.subrange(j, j + 2)[0] == rest[j]);
        }
    }
    lemma_find_first(rest, sep, 2);
    if !r.4 {
        assert forall|j: int| 0 <= j < rest.len() - 1 implies !(#[trigger] rest[j] == '-' && rest[j + 1] == '-') by {
            if j < 6 {
                assert(rest[j] == op[j]);
            } else if j == 6 {
                assert(rest[j] == ' ');
            } else if j < b + r.1.len() {
                assert(rest[j] == r.1[j - b]);
                if j + 1 < b + r.1.len() {
                    assert(rest[j + 1] == r.1[j + 1 - b]);
                } else {
                    assert(rest[j + 1] == tl[0]);
                }
            } else {
                let k = j - b - r.1.len();
                assert(rest[j] == tl[k]);
                assert(rest[j + 1] == tl[k + 1]);
                if k >= 3 {
                    assert(tl[k] == r.5[k - 3]);
                    assert(tl[k + 1] == r.5[k - 2]);
                }
            }
        }
        lemma_no_pair(rest, '-', "--"@);
    }
    assert(rest.subrange(0, 2) =~= card_left(r.2));
    lemma_left_card(r.2);
    let more = " "@ + r.1 + tl;
    assert(rest.subrange(4, rest.len() as int) =~= card_right(r.3) + more);
    lemma_right_card(r.3, more);
}

proof fn lemma_relationship(r: RelV)
    requires
        rel_ok(r),
    ensures
        relationship(rel_stmt(r)) == Some(r),
        rel_stmt(r).last() != '{',
        trim(rel_stmt(r)) == rel_stmt(r),
{
    reveal_strlit(" ");
    reveal_strlit(" : ");
    reveal_strlit(":");
    lemma_rel_text(r);
    lemma_opr_chars(r);
    let t = rel_stmt(r);
    let op = rel_opr(r);
    let tl = rel_tail(r);
    let q = r.0.len() as int;
    assert(t =~= r.0 + " "@ + op + " "@ + r.1 + tl);
    lemma_ops_only_at(r);
    lemma_split_rel(t, 0, q + 1);
    assert(t.subrange(0, q + 1) =~= r.0 + " "@);
    let rest = t.subrange(q + 1, t.len() as int);
    assert(rest =~= op + " "@ + r.1 + tl);
    assert(!is_ws(r.0[0]) && !is_ws(r.0[q - 1]));
    lemma_trim_space_end(r.0);
    lemma_rel_op(r);
    let w = r.1 + tl;
    assert(!is_ws(r.1[0]) && !is_ws(r.1[r.1.len() - 1]));
    assert(w[0] == r.1[0]);
    if r.5.len() == 0 {
        assert(w =~= r.1);
        assert(t.last() == r.1.last());
    } else {
        assert(w.last() == r.5.last());
        assert(t.last() == r.5.last());
    }
    lemma_trim_space_end(w);
    assert(" "@ + r.1 + tl =~= " "@ + w);
    let bl = r.1.len() as int;
    assert forall|j: int| 0 <= j < bl implies !occurs_at(w, ":"@, j) by {
        if occurs_at(w, ":"@, j) {
            assert(w.subrange(j, j + 1)[0] == w[j]);
            assert(w[j] == r.1[j]);
        }
    }
    if r.5.len() == 0 {
        assert forall|j: int| 0 <= j implies !occurs_at(w, ":"@, j) by {
            if occurs_at(w, ":"@, j) {
                assert(w.subrange(j, j + 1)[0] == w[j]);
                assert(w[j] == r.1[j]);
            }
        }
        lemma_find_absent(w, ":"@);
        assert(solid(r.1));
        lemma_words_spaced(r.1, Seq::<Seq<char>>::empty());
        assert(spaced(Seq::<Seq<char>>::empty()) == Seq::<char>::empty());
        assert(r.1 + spaced(Seq::<Seq<char>>::empty()) =~= r.1);
    } else {
        assert(occurs_at(w, ":"@, bl + 1)) by {
            assert(w.subrange(bl + 1, bl + 2) =~= ":"@);
        }
        assert(!occurs_at(w, ":"@, bl)) by {
            assert(w.subrange(bl, bl + 1)[0] == w[bl]);
        }
        lemma_find_first(w, ":"@, bl + 1);
        assert(w.subrange(0, bl + 1) =~= r.1 + " "@);
        assert(w.subrange(bl + 2, w.len() as int) =~= " "@ + r.5);
        lemma_trim_space_end(r.1);
        lemma_trim_space_end(r.5);
    }
    crate::text::lemma_trim_fixed(t);
}

proof fn lemma_str_lt_asym(a: Seq<char>, b: Seq<char>)
    ensures
        str_lt(a, b) ==> !str_lt(b, a),
        !str_lt(a, a),
    decreases a.len(),
{
    if a.len() > 0 && b.len() > 0 && a[0] == b[0] {
        lemma_str_lt_asym(a.drop_first(), b.drop_first());
    }
    if a.len() > 0 {
        lemma_str_lt_asym(a.drop_first(), a.drop_first());
    }
}

/// Entities already in order of their ids stay as they are.
proof fn lemma_sort_sorted(s: Seq<EntityV>)
    requires
        forall|a: int, b: int| 0 <= a < b < s.len() ==> str_lt((#[trigger] s[a]).0, (#[trigger] s[b]).0),
    ensures
        sort_entities(s) == s,
    decreases s.len(),
{
    if s.len() > 0 {
        let p = s.drop_last();
        assert forall|a: int, b: int| 0 <= a < b < p.len() implies str_lt((#[trigger] p[a]).0, (#[trigger] p[b]).0) by {
            assert(p[a] == s[a] && p[b] == s[b]);
        }
        lemma_sort_sorted(p);
        let e = s.last();
        let f = |x: EntityV| str_lt(e.0, x.0);
        lemma_first_from(p, f, 0);
        assert forall|j: int| 0 <= j < p.len() implies !f(#[trigger] p[j]) by {
            assert(str_lt(s[j].0, s[s.len() - 1].0));
            lemma_str_lt_asym(s[j].0, e.0);
        }
        assert(first(p, f) is None);
        assert(p.push(e) =~= s);
    }
}

proof fn lemma_esl_step(es: Seq<EntityV>, k: int)
    requires
        0 <= k < es.len(),
    ensures
        ent_stmt_lines(es.take(k + 1)) == ent_stmt_lines(es.take(k)) + ent_stmts(es[k]),
{
    assert(es.take(k + 1).drop_last() =~= es.take(k));
    assert(es.take(k + 1).last() == es[k]);
}

proof fn lemma_esl_prefix(es: Seq<EntityV>, m: int)
    requires
        0 <= m <= es.len(),
    ensures
        ent_stmt_lines(es.take(m)).len() <= ent_stmt_lines(es).len(),
        forall|x: int| 0 <= x < ent_stmt_lines(es.take(m)).len() ==> #[trigger] ent_stmt_lines(es)[x] == ent_stmt_lines(
            es.take(m),
        )[x],
    decreases es.len(),
{
    if m == es.len() {
        assert(es.take(m) =~= es);
    } else {
        let p = es.drop_last();
        assert(p.take(m) =~= es.take(m));
        lemma_esl_prefix(p, m);
        assert forall|x: int| 0 <= x < ent_stmt_lines(es.take(m)).len() implies #[trigger] ent_stmt_lines(es)[x]
            == ent_stmt_lines(es.take(m))[x] by {
            assert(ent_stmt_lines(es)[x] == ent_stmt_lines(p)[x]);
        }
    }
}

pub open spec fn ent_start(es: Seq<EntityV>, k: int) -> int {
    1 + ent_stmt_lines(es.take(k)).len() as int
}

#[verifier::rlimit(40)]
proof fn lemma_run_ents(d: ErDiagramV, ks: Seq<(int, Seq<char>)>, k: int)
    requires
        plain_er(d),
        keys_upper(),
        ks == Seq::new(er_stmts(d).len(), |i: int| (i + 1, er_stmts(d)[i])),
        0 <= k <= d.entities.len(),
    ensures
        er_run(ks, ent_start(d.entities, k), ErSt { ents: d.entities.take(k), rels: Seq::empty() }) == er_run(
            ks,
            ent_start(d.entities, d.entities.len() as int),
            ErSt { ents: d.entities, rels: Seq::empty() },
        ),
    decreases d.entities.len() - k,
{
    let es = d.entities;
    let ne = es.len() as int;
    if k == ne {
        assert(es.take(k) =~= es);
    } else {
        let t = er_stmts(d);
        let p = ent_start(es, k);
        let e = es[k];
        assert(entity_ok(e));
        lemma_esl_step(es, k);
        lemma_esl_prefix(es, k + 1);
        let lk = ent_stmt_lines(es.take(k)).len() as int;
        let n = ent_stmts(e).len() as int;
        assert(p + n == ent_start(es, k + 1));
        assert(ks.len() == t.len());
        assert(t.len() == 1 + ent_stmt_lines(es).len() + d.relationships.len());
        assert forall|x: int| 0 <= x < n implies (#[trigger] ks[p + x]).1 == ent_stmts(e)[x] by {
            assert(ks[p + x].1 == t[p + x]);
            assert(t[p + x] == ent_stmt_lines(es)[lk + x]);
            assert(ent_stmt_lines(es)[lk + x] == ent_stmt_lines(es.take(k + 1))[lk + x]);
        }
        lemma_block(ks, p, e);
        let st = ErSt { ents: es.take(k), rels: Seq::<RelV>::empty() };
        let keys = keys_of(es.take(k));
        lemma_key_pos_from(keys, e.0, 0);
        assert forall|l: int| 0 <= l < keys.len() implies keys[l] != e.0 by {
            assert(keys[l] == es[l].0);
            assert(str_lt(es[l].0, es[k].0));
            lemma_str_lt_asym(es[l].0, es[k].0);
        }
        assert(key_pos(keys, e.0) is None);
        assert(assoc_insert(es.take(k), e.0, e.1) =~= es.take(k + 1));
        let s2 = ErSt { ents: es.take(k + 1), rels: Seq::<RelV>::empty() };
        assert(er_step(ks, p, st) == Ok::<(int, ErSt), (Seq<char>, Option<int>)>((p + n, s2)));
        assert(n >= 2);
        assert(er_run(ks, p, st) == er_run(ks, p + n, s2));
        lemma_run_ents(d, ks, k + 1);
    }
}

#[verifier::rlimit(40)]
proof fn lemma_run_rels(d: ErDiagramV, ks: Seq<(int, Seq<char>)>, k: int)
    requires
        plain_er(d),
        ks == Seq::new(er_stmts(d).len(), |i: int| (i + 1, er_stmts(d)[i])),
        0 <= k <= d.relationships.len(),
    ensures
        er_run(
            ks,
            ent_start(d.entities, d.entities.len() as int) + k,
            ErSt { ents: d.entities, rels: d.relationships.take(k) },
        ) == Ok::<ErSt, (Seq<char>, Option<int>)>(ErSt { ents: d.entities, rels: d.relationships }),
    decreases d.relationships.len() - k,
{
    let es = d.entities;
    let rs = d.relationships;
    let t = er_stmts(d);
    assert(es.take(es.len() as int) =~= es);
    let i = ent_start(es, es.len() as int) + k;
    assert(t.len() == 1 + ent_stmt_lines(es).len() + rs.len());
    if k == rs.len() {
        assert(rs.take(k) =~= rs);
    } else {
        let r = rs[k];
        assert(rel_ok(r));
        assert(ks[i].1 == t[i]);
        assert(t[i] == rel_stmt(r));
        lemma_relationship(r);
        assert(!entity_block_start(ks[i].1));
        let keys = keys_of(es);
        lemma_key_pos_from(keys, r.0, 0);
        lemma_key_pos_from(keys, r.1, 0);
        assert(has_entity(d, r.0) && has_entity(d, r.1));
        let a0 = choose|a: int| 0 <= a < es.len() && (#[trigger] es[a]).0 == r.0;
        let a1 = choose|a: int| 0 <= a < es.len() && (#[trigger] es[a]).0 == r.1;
        assert(keys[a0] == r.0);
        assert(keys[a1] == r.1);
        assert(assoc_default(es, r.0, Seq::<AttrV>::empty()) == es);
        assert(assoc_default(es, r.1, Seq::<AttrV>::empty()) == es);
        let st = ErSt { ents: es, rels: rs.take(k) };
        let s2 = ErSt { ents: es, rels: rs.take(k + 1) };
        assert(rs.take(k).push(r) =~= rs.take(k + 1));
        assert(er_step(ks, i, st) == Ok::<(int, ErSt), (Seq<char>, Option<int>)>((i + 1, s2)));
        assert(er_run(ks, i, st) == er_run(ks, i + 1, s2));
        lemma_run_rels(d, ks, k + 1);
    }
}

/// The Mermaid text that the writer prints for an ER diagram reads back as
/// that diagram: its entities (id and attributes: type, name and keys) in
/// order and its relationships (ends, cardinalities, identifying, label) in
/// order, where every entity has attributes, entities come in order of their
/// ids, relationships join entities, ids, types, names and labels are taken
/// by the reader as they stand, and the standard upper-casing leaves `PK`,
/// `FK` and `UK` unchanged (as it does any ASCII text).
pub proof fn law_er_mermaid_reads_back(d: ErDiagramV)
    requires
        plain_er(d),
    ensures
        keys_upper() ==> er_parse(er_mermaid(d)) == Ok::<ErDiagramV, (Seq<char>, Option<int>)>(d),
{
    if keys_upper() {
        reveal_strlit("erDiagram");
        lemma_er_text(d);
        let t = er_stmts(d);
        let ks = Seq::new(t.len(), |i: int| (i + 1, t[i]));
        assert(ks[0].1 == "erDiagram"@);
        assert("erDiagram"@.is_prefix_of(ks[0].1)) by {
            assert(ks[0].1.subrange(0, 9) =~= "erDiagram"@);
        }
        let es = d.entities;
        assert(es.take(0) =~= Seq::<EntityV>::empty());
        assert(ent_stmt_lines(es.take(0)) =~= Seq::<Seq<char>>::empty());
        assert(ent_start(es, 0) == 1);
        lemma_run_ents(d, ks, 0);
        lemma_run_rels(d, ks, 0);
        assert(d.relationships.take(0) =~= Seq::<RelV>::empty());
        assert(ent_start(es, es.len() as int) + 0 == ent_start(es, es.len() as int));
        lemma_sort_sorted(es);
    }
}

} // verus!
