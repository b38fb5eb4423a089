use vstd::prelude::*;
use crate::dot_laws::occurs_in;
use crate::display::{max_char_pattern, max_char_name, replace_all, dot_char_label, is_control_char, hex4_text, html_char, html_escaped, decimal_text, node_line, edge_line};
use vstd::utf8::char_u32_cast;
use crate::numerals::{lemma_hex4_text_injective, lemma_hex4_text_reads_back, hex_value, lemma_decimal_then_text};

verus! {

/// Every character of a Graphviz label of a `char` is printable, and a
/// double quote in it follows a backslash.
pub proof fn lemma_dot_char_label_is_safe(ch: char)
    ensures
        dot_char_label(ch).len() >= 1,
        forall|i: int| 0 <= i < dot_char_label(ch).len() ==> !is_control_char(#[trigger] dot_char_label(ch)[i]),
        forall|i: int| 0 <= i < dot_char_label(ch).len() && #[trigger] dot_char_label(ch)[i] == '"' ==> i > 0
            && dot_char_label(ch)[i - 1] == '\\',
{
    let l = dot_char_label(ch);
    if is_control_char(ch) && ch != '\0' && ch != '\n' && ch != '\r' && ch != '\t' {
        lemma_hex4_text_reads_back(ch as u32 as nat);
        let h = hex4_text(ch as u32 as nat);
        assert(l == seq!['U', '+'] + h);
        assert forall|i: int| 0 <= i < l.len() implies !is_control_char(#[trigger] l[i]) && l[i] != '"' by {
            if i >= 2 {
                assert(l[i] == h[i - 2]);
                assert(hex_value(h[i - 2]) is Some);
            }
        }
    }
}

/// Distinct `char`s have distinct Graphviz labels.
pub proof fn lemma_dot_char_label_injective(a: char, b: char)
    requires
        dot_char_label(a) == dot_char_label(b),
    ensures
        a == b,
{
    let la = dot_char_label(a);
    let lb = dot_char_label(b);
    let ca = is_control_char(a) && a != '\0' && a != '\n' && a != '\r' && a != '\t';
    let cb = is_control_char(b) && b != '\0' && b != '\n' && b != '\r' && b != '\t';
    if ca {
        lemma_hex4_text_reads_back(a as u32 as nat);
    }
    if cb {
        lemma_hex4_text_reads_back(b as u32 as nat);
    }
    if ca && cb {
        let ha = hex4_text(a as u32 as nat);
        let hb = hex4_text(b as u32 as nat);
        assert(ha =~= la.skip(2));
        assert(hb =~= lb.skip(2));
        lemma_hex4_text_injective(a as u32 as nat, b as u32 as nat);
        char_u32_cast(a, a as u32);
        char_u32_cast(b, b as u32);
    } else if ca {
        assert(la[0] == 'U' && la.len() >= 6);
        assert(lb.len() <= 3);
    } else if cb {
        assert(lb[0] == 'U' && lb.len() >= 6);
        assert(la.len() <= 3);
    } else {
        assert(la.len() <= 3 && lb.len() <= 3);
        if la.len() == 2 {
            assert(la[1] == lb[1]);
        } else if la.len() == 3 {
            assert(la[2] == lb[2]);
        } else {
            assert(a != '"' && a != '\\' && a != '\0' && a != '\n' && a != '\r' && a != '\t');
            assert(b != '"' && b != '\\' && b != '\0' && b != '\n' && b != '\r' && b != '\t');
            assert(la == seq![a]);
            assert(lb == seq![b]);
            assert(la[0] == a && lb[0] == b);
        }
    }
}

/// Escaping for HTML goes character by character: the text of two joined
/// pieces is the texts of the pieces, joined.
pub proof fn lemma_html_escaped_append(a: Seq<char>, b: Seq<char>)
    ensures
        html_escaped(a + b) == html_escaped(a) + html_escaped(b),
    decreases b.len(),
{
    if b.len() == 0 {
        assert(a + b =~= a);
        assert(html_escaped(a) + html_escaped(b) =~= html_escaped(a));
    } else {
        lemma_html_escaped_append(a, b.drop_last());
        assert((a + b).drop_last() =~= a + b.drop_last());
        assert((a + b).last() == b.last());
        assert(html_escaped(a + b) =~= html_escaped(a) + html_escaped(b));
    }
}

/// `s` holds the entity `&amp;`, `&lt;` or `&gt;` from position `i` on.
pub open spec fn entity_at(s: Seq<char>, i: int) -> bool {
    ||| (i + 5 <= s.len() && s.subrange(i, i + 5) == seq!['&', 'a', 'm', 'p', ';'])
    ||| (i + 4 <= s.len() && s.subrange(i, i + 4) == seq!['&', 'l', 't', ';'])
    ||| (i + 4 <= s.len() && s.subrange(i, i + 4) == seq!['&', 'g', 't', ';'])
}

/// Text escaped for HTML holds no `<` or `>`, and each `&` in it starts one
/// of the entities `&amp;`, `&lt;` and `&gt;`.
pub proof fn lemma_html_escaped_is_safe(text: Seq<char>)
    ensures
        forall|i: int| 0 <= i < html_escaped(text).len() ==> #[trigger] html_escaped(text)[i] != '<'
            && html_escaped(text)[i] != '>',
        forall|i: int| 0 <= i < html_escaped(text).len() && #[trigger] html_escaped(text)[i] == '&'
            ==> entity_at(html_escaped(text), i),
    decreases text.len(),
{
    if text.len() > 0 {
        let init = text.drop_last();
        lemma_html_escaped_is_safe(init);
        let e0 = html_escaped(init);
        let h = html_char(text.last());
        let e = html_escaped(text);
        assert(e == e0 + h);
        assert forall|i: int| 0 <= i < e.len() implies #[trigger] e[i] != '<' && e[i] != '>' by {
            if i < e0.len() {
                assert(e[i] == e0[i]);
            } else {
                assert(e[i] == h[i - e0.len()]);
            }
        }
        assert forall|i: int| 0 <= i < e.len() && #[trigger] e[i] == '&' implies entity_at(e, i) by {
            if i < e0.len() {
                assert(e[i] == e0[i]);
                assert(entity_at(e0, i));
                if i + 5 <= e0.len() {
                    assert(e.subrange(i, i + 5) =~= e0.subrange(i, i + 5));
                }
                if i + 4 <= e0.len() {
                    assert(e.subrange(i, i + 4) =~= e0.subrange(i, i + 4));
                }
            } else {
                assert(e[i] == h[i - e0.len()]);
                assert(i == e0.len());
                assert(e.subrange(i, e.len() as int) =~= h);
            }
        }
    }
}

/// Escaping text for HTML puts `c` first when it escapes `c` followed by
/// more text.
proof fn lemma_html_escaped_prepend(c: char, t: Seq<char>)
    ensures
        html_escaped(seq![c] + t) == html_char(c) + html_escaped(t),
{
    lemma_html_escaped_append(seq![c], t);
    assert(seq![c].drop_last() =~= Seq::<char>::empty());
    assert(html_escaped(Seq::<char>::empty()) == Seq::<char>::empty());
    assert(seq![c].last() == c);
    assert(html_escaped(seq![c]) =~= html_char(c));
}

/// Distinct texts escape to distinct HTML.
pub proof fn lemma_html_escaped_injective(a: Seq<char>, b: Seq<char>)
    requires
        html_escaped(a) == html_escaped(b),
    ensures
        a == b,
    decreases a.len() + b.len(),
{
    if a.len() == 0 || b.len() == 0 {
        if a.len() > 0 {
            lemma_html_escaped_prepend(a[0], a.skip(1));
            assert(seq![a[0]] + a.skip(1) =~= a);
            assert(html_escaped(b).len() == 0);
        } else if b.len() > 0 {
            lemma_html_escaped_prepend(b[0], b.skip(1));
            assert(seq![b[0]] + b.skip(1) =~= b);
            assert(html_escaped(a).len() == 0);
        } else {
            assert(a =~= b);
        }
    } else {
        let ta = a.skip(1);
        let tb = b.skip(1);
        lemma_html_escaped_prepend(a[0], ta);
        lemma_html_escaped_prepend(b[0], tb);
        assert(seq![a[0]] + ta =~= a);
        assert(seq![b[0]] + tb =~= b);
        let ha = html_char(a[0]);
        let hb = html_char(b[0]);
        let e = html_escaped(a);
        assert(e == ha + html_escaped(ta));
        assert(e == hb + html_escaped(tb));
        assert(e[0] == ha[0] && e[0] == hb[0]);
        if ha[0] == '&' {
            assert(e[1] == ha[1] && e[1] == hb[1]);
        }
        assert(a[0] == b[0]);
        assert(ha == hb);
        assert(html_escaped(ta) =~= e.skip(ha.len() as int));
        assert(html_escaped(tb) =~= e.skip(hb.len() as int));
        lemma_html_escaped_injective(ta, tb);
        assert(a =~= b);
    }
}

/// Node lines name their states apart: two node lines are equal only for the
/// same state with the same acceptance.
pub proof fn lemma_node_line_names_its_state(i: nat, j: nat, x: bool, y: bool)
    requires
        node_line(i, x) == node_line(j, y),
    ensures
        i == j,
        x == y,
{
    reveal_strlit("  s");
    reveal_strlit(" [shape=");
    reveal_strlit("doublecircle");
    reveal_strlit("circle");
    reveal_strlit("];\n");
    let pre = "  s"@;
    let shape_x = if x { "doublecircle"@ } else { "circle"@ };
    let shape_y = if y { "doublecircle"@ } else { "circle"@ };
    let sa = " [shape="@ + shape_x + "];\n"@;
    let sb = " [shape="@ + shape_y + "];\n"@;
    assert(node_line(i, x) =~= pre + (decimal_text(i) + sa));
    assert(node_line(j, y) =~= pre + (decimal_text(j) + sb));
    assert(decimal_text(i) + sa =~= (pre + (decimal_text(i) + sa)).skip(3));
    assert(decimal_text(j) + sb =~= (pre + (decimal_text(j) + sb)).skip(3));
    assert(sa[0] == ' ' && sb[0] == ' ');
    lemma_decimal_then_text(i, j, sa, sb);
    if x != y {
        assert(sa[8] != sb[8]);
    }
}

/// Edge lines name their ends apart: two edge lines are equal only for the
/// same source, target and label.
pub proof fn lemma_edge_line_names_its_ends(f1: nat, t1: nat, l1: Seq<char>, f2: nat, t2: nat, l2: Seq<char>)
    requires
        edge_line(f1, t1, l1) == edge_line(f2, t2, l2),
    ensures
        f1 == f2,
        t1 == t2,
        l1 == l2,
{
    reveal_strlit("  s");
    reveal_strlit(" -> s");
    reveal_strlit(" [label=\"");
    reveal_strlit("\"];\n");
    let pre = "  s"@;
    let mid = " -> s"@;
    let lab = " [label=\""@;
    let end = "\"];\n"@;
    let ra = decimal_text(t1) + (lab + l1 + end);
    let rb = decimal_text(t2) + (lab + l2 + end);
    let sa = mid + ra;
    let sb = mid + rb;
    assert(edge_line(f1, t1, l1) =~= pre + (decimal_text(f1) + sa));
    assert(edge_line(f2, t2, l2) =~= pre + (decimal_text(f2) + sb));
    assert(decimal_text(f1) + sa =~= (pre + (decimal_text(f1) + sa)).skip(3));
    assert(decimal_text(f2) + sb =~= (pre + (decimal_text(f2) + sb)).skip(3));
    assert(sa[0] == ' ' && sb[0] == ' ');
    lemma_decimal_then_text(f1, f2, sa, sb);
    assert(ra =~= sa.skip(5));
    assert(rb =~= sb.skip(5));
    let qa = lab + l1 + end;
    let qb = lab + l2 + end;
    assert(qa[0] == ' ' && qb[0] == ' ');
    lemma_decimal_then_text(t1, t2, qa, qb);
    assert(l1 =~= qa.subrange(9, qa.len() - 4));
    assert(l2 =~= qb.subrange(9, qb.len() - 4));
}

/// When the result of naming the largest `char` starts like the pattern from
/// position `a` on, the text did too.
proof fn lemma_replace_all_pattern_tail(t: Seq<char>, a: int, j: int)
    requires
        1 <= a,
        0 <= j,
        a + j <= max_char_pattern().len(),
        replace_all(t, max_char_pattern(), max_char_name()).len() >= j,
        replace_all(t, max_char_pattern(), max_char_name()).take(j) == max_char_pattern().subrange(a, a + j),
    ensures
        t.len() >= j,
        t.take(j) == max_char_pattern().subrange(a, a + j),
    decreases j,
{
    let p = max_char_pattern();
    let r = max_char_name();
    let out = replace_all(t, p, r);
    if j > 0 {
        assert(out.take(j)[0] == out[0]);
        assert(p.subrange(a, a + j)[0] == p[a]);
        assert(out[0] == p[a]);
        assert(out.len() > 0);
        assert(t.len() > 0);
        if p.len() <= t.len() && t.take(p.len() as int) == p {
            assert(out == r + replace_all(t.skip(p.len() as int), p, r));
            assert(out[0] == 'c');
            assert(p[a] != 'c');
        } else {
            let rest = replace_all(t.skip(1), p, r);
            assert(out == seq![t[0]] + rest);
            assert(rest.take(j - 1) =~= out.take(j).skip(1));
            assert(p.subrange(a + 1, a + j) =~= p.subrange(a, a + j).skip(1));
            lemma_replace_all_pattern_tail(t.skip(1), a + 1, j - 1);
            assert(t.take(j) =~= seq![t[0]] + t.skip(1).take(j - 1));
            assert(t[0] == out[0]);
            assert(p.subrange(a, a + j) =~= seq![p[a]] + p.subrange(a + 1, a + j));
        }
    } else {
        assert(t.take(0) =~= p.subrange(a, a));
    }
}

/// After naming the largest `char`, its pattern occurs nowhere in the text.
pub proof fn lemma_replace_all_removes_pattern(t: Seq<char>)
    ensures
        !occurs_in(max_char_pattern(), replace_all(t, max_char_pattern(), max_char_name())),
    decreases t.len(),
{
    let p = max_char_pattern();
    let r = max_char_name();
    let out = replace_all(t, p, r);
    if t.len() > 0 {
        if p.len() <= t.len() && t.take(p.len() as int) == p {
            let rest = replace_all(t.skip(p.len() as int), p, r);
            lemma_replace_all_removes_pattern(t.skip(p.len() as int));
            assert(out == r + rest);
            if occurs_in(p, out) {
                let k = choose|k: int| 0 <= k && k + p.len() <= out.len() && #[trigger] out.subrange(k, k + p.len()) == p;
                if k < r.len() {
                    assert(out.subrange(k, k + p.len())[0] == r[k]);
                } else {
                    let k2 = k - r.len();
                    assert(rest.subrange(k2, k2 + p.len()) =~= out.subrange(k, k + p.len()));
                }
            }
        } else {
            let rest = replace_all(t.skip(1), p, r);
            lemma_replace_all_removes_pattern(t.skip(1));
            assert(out == seq![t[0]] + rest);
            if occurs_in(p, out) {
                let k = choose|k: int| 0 <= k && k + p.len() <= out.len() && #[trigger] out.subrange(k, k + p.len()) == p;
                if k == 0 {
                    let q = p.len() - 1;
                    assert(rest.take(q) =~= out.subrange(1, p.len() as int));
                    assert(out.subrange(1, p.len() as int) =~= p.subrange(1, 1 + q));
                    lemma_replace_all_pattern_tail(t.skip(1), 1, q);
                    assert(t[0] == out[0]);
                    assert(out[0] == p[0]);
                    assert(t.take(p.len() as int) =~= seq![t[0]] + t.skip(1).take(q));
                    assert(p =~= seq![p[0]] + p.subrange(1, 1 + q));
                } else {
                    let k2 = k - 1;
                    assert(rest.subrange(k2, k2 + p.len()) =~= out.subrange(k, k + p.len()));
                }
            }
        }
    }
}

/// Text in which the pattern of the largest `char` does not occur is left as
/// it is.
pub proof fn lemma_replace_all_keeps_plain_text(t: Seq<char>)
    requires
        !occurs_in(max_char_pattern(), t),
    ensures
        replace_all(t, max_char_pattern(), max_char_name()) == t,
    decreases t.len(),
{
    let p = max_char_pattern();
    if t.len() > 0 {
        if p.len() <= t.len() && t.take(p.len() as int) == p {
            let k0: int = 0;
            assert(t.subrange(k0, k0 + p.len()) =~= t.take(p.len() as int));
        }
        let rest = t.skip(1);
        assert(!occurs_in(p, rest)) by {
            if occurs_in(p, rest) {
                let k = choose|k: int| 0 <= k && k + p.len() <= rest.len() && #[trigger] rest.subrange(k, k + p.len()) == p;
                assert(t.subrange(k + 1, k + 1 + p.len()) =~= rest.subrange(k, k + p.len()));
            }
        }
        lemma_replace_all_keeps_plain_text(rest);
        assert(t =~= seq![t[0]] + rest);
    }
}

} // verus!
