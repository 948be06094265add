use crate::line::{heading_line, is_white_space, marker_count, title_of, trim, trim_end, trim_start};
use crate::org::{build, fill, join_lines, lemma_fill_stops, leaf, own_lines, render, render_all, Outline};
use vstd::prelude::*;

verus! {

/// The level of the last heading line before position `k`, or 0 if there is none.
pub open spec fn level_before(lines: Seq<Seq<char>>, k: int) -> nat
    decreases k,
{
    if k <= 0 {
        0
    } else if marker_count(lines[k - 1]) > 0 {
        marker_count(lines[k - 1])
    } else {
        level_before(lines, k - 1)
    }
}

/// No heading is more than one level deeper than the heading before it (or,
/// for the first heading, than the root).
pub open spec fn sequential(lines: Seq<Seq<char>>) -> bool {
    forall|k: int| 0 <= k < lines.len() ==> #[trigger] marker_count(lines[k]) <= level_before(lines, k) + 1
}

/// Every heading line is written as it renders: its markers, one space, and
/// its trimmed title.
pub open spec fn canonical(lines: Seq<Seq<char>>) -> bool {
    forall|k: int|
        0 <= k < lines.len() && #[trigger] marker_count(lines[k]) > 0 ==> lines[k] == heading_line(
            marker_count(lines[k]),
            title_of(lines[k]),
        )
}

proof fn lemma_render_push_content(node: Outline, x: Seq<char>)
    requires
        node.children.len() == 0,
    ensures
        render(Outline { content: node.content.push(x), ..node }) == render(node).push(x),
{
    let n2 = Outline { content: node.content.push(x), ..node };
    assert(render_all(n2.children) == Seq::<Seq<char>>::empty());
    assert(render(n2) =~= render(node).push(x));
}

proof fn lemma_render_push_child(node: Outline, c: Outline)
    ensures
        render(Outline { children: node.children.push(c), ..node }) == render(node) + render(c),
{
    let n2 = Outline { children: node.children.push(c), ..node };
    assert(n2.children.drop_last() =~= node.children);
    assert(render_all(n2.children) == render_all(node.children) + render(c));
    assert(render(n2) =~= render(node) + render(c));
}

/// A rendered heading line of some depth starts with that many markers.
pub proof fn lemma_marker_count_heading_line(depth: nat, title: Seq<char>)
    ensures
        marker_count(heading_line(depth, title)) == depth,
    decreases depth,
{
    let s = heading_line(depth, title);
    if depth > 0 {
        assert(s.drop_first() =~= heading_line((depth - 1) as nat, title));
        lemma_marker_count_heading_line((depth - 1) as nat, title);
    } else {
        assert(s[0] == ' ');
    }
}

proof fn lemma_append_run(
    r: Seq<Seq<char>>,
    lines: Seq<Seq<char>>,
    i: int,
    j: int,
    k: int,
)
    requires
        0 <= i < j <= k <= lines.len(),
    ensures
        r + lines.subrange(i, j) + lines.subrange(j, k) == r + lines.subrange(i, k),
        r.push(lines[i]) + lines.subrange(i + 1, k) == r + lines.subrange(i, k),
        r + (seq![lines[i]] + lines.subrange(i + 1, j)) == r + lines.subrange(i, j),
{
    assert(r + lines.subrange(i, j) + lines.subrange(j, k) =~= r + lines.subrange(i, k));
    assert(r.push(lines[i]) + lines.subrange(i + 1, k) =~= r + lines.subrange(i, k));
    assert(r + (seq![lines[i]] + lines.subrange(i + 1, j)) =~= r + lines.subrange(i, j));
}

proof fn lemma_render_stop(node: Outline, lines: Seq<Seq<char>>, i: int)
    requires
        0 <= i <= lines.len(),
    ensures
        render(node) + lines.subrange(i, i) == render(node),
{
    assert(render(node) + lines.subrange(i, i) =~= render(node));
}

proof fn lemma_render_heading(lines: Seq<Seq<char>>, i: int, depth: nat)
    requires
        0 <= i < lines.len(),
        depth > 0,
        lines[i] == heading_line(depth, title_of(lines[i])),
    ensures
        render(leaf(depth, title_of(lines[i]))) == seq![lines[i]],
{
    let c0 = leaf(depth, title_of(lines[i]));
    assert(render_all(c0.children) == Seq::<Seq<char>>::empty());
    assert(render(c0) =~= seq![lines[i]]);
}

#[verifier::spinoff_prover]
proof fn lemma_fill_render(lines: Seq<Seq<char>>, node: Outline, i: int)
    requires
        sequential(lines),
        canonical(lines),
        0 <= i <= lines.len(),
        (node.children.len() == 0 && node.depth == level_before(lines, i)) || (i < lines.len()
            ==> 1 <= marker_count(lines[i]) <= node.depth + 1),
    ensures
        render(fill(lines, node, i).0) == render(node) + lines.subrange(i, fill(lines, node, i).1),
    decreases lines.len() - i,
{
    if i == lines.len() {
        lemma_render_stop(node, lines, i);
    } else {
        let level = marker_count(lines[i]);
        if level == 0 {
            let n2 = Outline { content: node.content.push(lines[i]), ..node };
            assert(fill(lines, node, i) == fill(lines, n2, i + 1));
            assert(level_before(lines, i + 1) == level_before(lines, i));
            lemma_render_push_content(node, lines[i]);
            lemma_fill_render(lines, n2, i + 1);
            lemma_fill_stops(lines, n2, i + 1);
            lemma_append_run(render(node), lines, i, i + 1, fill(lines, n2, i + 1).1);
        } else if level <= node.depth {
            lemma_render_stop(node, lines, i);
        } else {
            assert(level <= level_before(lines, i) + 1);
            assert(lines[i] == heading_line(level, title_of(lines[i])));
            let c0 = leaf(node.depth + 1, title_of(lines[i]));
            lemma_render_heading(lines, i, node.depth + 1);
            assert(level_before(lines, i + 1) == level);
            lemma_fill_render(lines, c0, i + 1);
            lemma_fill_stops(lines, c0, i + 1);
            let (child, j) = fill(lines, c0, i + 1);
            let n2 = Outline { children: node.children.push(child), ..node };
            assert(fill(lines, node, i) == fill(lines, n2, j));
            lemma_render_push_child(node, child);
            lemma_fill_render(lines, n2, j);
            lemma_fill_stops(lines, n2, j);
            let k = fill(lines, n2, j).1;
            lemma_append_run(render(node), lines, i, j, k);
        }
    }
}

/// Round trip: a document whose headings are written as they render and never
/// skip a level renders back to exactly its own lines.
pub proof fn law_round_trip(lines: Seq<Seq<char>>)
    requires
        sequential(lines),
        canonical(lines),
    ensures
        render(build(lines)) == lines,
{
    let root = leaf(0, Seq::empty());
    assert(render_all(root.children) == Seq::<Seq<char>>::empty());
    assert(render(root) =~= Seq::<Seq<char>>::empty());
    lemma_fill_render(lines, root, 0);
    lemma_fill_stops(lines, root, 0);
    assert(lines.subrange(0, lines.len() as int) =~= lines);
    assert(render(root) + lines =~= lines);
}

/// A tree as the builder makes it: each node one level deeper than its parent,
/// titles trimmed, and content made of lines that are not headings.
pub open spec fn well_formed(t: Outline, depth: nat) -> bool
    decreases t,
{
    &&& t.depth == depth
    &&& trim(t.heading) == t.heading
    &&& forall|k: int| 0 <= k < t.content.len() ==> marker_count(#[trigger] t.content[k]) == 0
    &&& forall|k: int|
        0 <= k < t.children.len() ==> well_formed(#[trigger] t.children[k], depth + 1)
}

/// What a node renders below its own heading line.
pub open spec fn body(t: Outline) -> Seq<Seq<char>> {
    t.content + render_all(t.children)
}

proof fn lemma_trim_start_front(s: Seq<char>)
    ensures
        trim_start(s).len() == 0 || !is_white_space(trim_start(s)[0]),
    decreases s.len(),
{
    if s.len() > 0 && is_white_space(s[0]) {
        lemma_trim_start_front(s.drop_first());
    }
}

proof fn lemma_trim_end_prefix(s: Seq<char>)
    ensures
        trim_end(s) == s.subrange(0, trim_end(s).len() as int),
        trim_end(s).len() <= s.len(),
        trim_end(s).len() == 0 || !is_white_space(trim_end(s).last()),
    decreases s.len(),
{
    if s.len() > 0 && is_white_space(s.last()) {
        lemma_trim_end_prefix(s.drop_last());
        assert(s.drop_last().subrange(0, trim_end(s).len() as int) =~= s.subrange(
            0,
            trim_end(s).len() as int,
        ));
    } else {
        assert(s.subrange(0, s.len() as int) =~= s);
    }
}

/// Trimming twice trims no more than trimming once.
pub proof fn lemma_trim_idempotent(s: Seq<char>)
    ensures
        trim(trim(s)) == trim(s),
{
    let u = trim_start(s);
    let v = trim_end(u);
    lemma_trim_start_front(s);
    lemma_trim_end_prefix(u);
    if v.len() > 0 {
        assert(v[0] == u[0]);
    }
    assert(trim_start(v) == v);
    assert(trim_end(v) == v);
}

/// The title of a rendered heading line is the node's own title, when that
/// title is trimmed.
pub proof fn lemma_title_of_heading_line(depth: nat, title: Seq<char>)
    requires
        trim(title) == title,
    ensures
        marker_count(heading_line(depth, title)) == depth,
        title_of(heading_line(depth, title)) == title,
{
    lemma_marker_count_heading_line(depth, title);
    let s = heading_line(depth, title);
    let rest = s.subrange(depth as int, s.len() as int);
    assert(rest =~= seq![' '] + title);
    assert(rest.drop_first() =~= title);
    assert(is_white_space(' '));
    assert(trim_start(rest) == trim_start(title));
}

proof fn lemma_fill_well_formed(lines: Seq<Seq<char>>, node: Outline, i: int)
    requires
        0 <= i <= lines.len(),
        well_formed(node, node.depth),
    ensures
        well_formed(fill(lines, node, i).0, node.depth),
    decreases lines.len() - i,
{
    if i < lines.len() {
        let level = marker_count(lines[i]);
        if level == 0 {
            let n2 = Outline { content: node.content.push(lines[i]), ..node };
            assert(well_formed(n2, node.depth));
            lemma_fill_well_formed(lines, n2, i + 1);
        } else if level > node.depth {
            let c0 = leaf(node.depth + 1, title_of(lines[i]));
            lemma_trim_idempotent(lines[i].subrange(marker_count(lines[i]) as int, lines[i].len() as int));
            assert(well_formed(c0, node.depth + 1));
            lemma_fill_well_formed(lines, c0, i + 1);
            lemma_fill_stops(lines, c0, i + 1);
            let (child, j) = fill(lines, c0, i + 1);
            let n2 = Outline { children: node.children.push(child), ..node };
            assert(well_formed(n2, node.depth));
            lemma_fill_well_formed(lines, n2, j);
        }
    }
}

proof fn lemma_fill_content(lines: Seq<Seq<char>>, node: Outline, i: int, cs: Seq<Seq<char>>)
    requires
        node.children.len() == 0,
        0 <= i,
        i + cs.len() <= lines.len(),
        lines.subrange(i, i + cs.len()) == cs,
        forall|k: int| 0 <= k < cs.len() ==> marker_count(#[trigger] cs[k]) == 0,
    ensures
        fill(lines, node, i) == fill(
            lines,
            Outline { content: node.content + cs, ..node },
            i + cs.len(),
        ),
    decreases cs.len(),
{
    if cs.len() == 0 {
        assert(node.content + cs =~= node.content);
    } else {
        assert(lines[i] == cs[0]);
        let n2 = Outline { content: node.content.push(lines[i]), ..node };
        let rest = cs.drop_first();
        assert(lines.subrange(i + 1, i + 1 + rest.len()) =~= rest);
        lemma_fill_content(lines, n2, i + 1, rest);
        assert(n2.content + rest =~= node.content + cs);
    }
}

proof fn lemma_render_all_first(cs: Seq<Outline>)
    requires
        cs.len() > 0,
    ensures
        render_all(cs) == render(cs[0]) + render_all(cs.drop_first()),
    decreases cs.len(),
{
    if cs.len() > 1 {
        lemma_render_all_first(cs.drop_last());
        assert(cs.drop_last().drop_first() =~= cs.drop_first().drop_last());
        assert(cs.drop_first().last() == cs.last());
        assert(render_all(cs) =~= render(cs[0]) + render_all(cs.drop_first()));
    } else {
        assert(cs.drop_last() =~= Seq::<Outline>::empty());
        assert(cs.drop_first() =~= Seq::<Outline>::empty());
        assert(render_all(cs) =~= render(cs[0]) + render_all(cs.drop_first()));
    }
}

proof fn lemma_subrange_split(lines: Seq<Seq<char>>, i: int, a: Seq<Seq<char>>, b: Seq<Seq<char>>)
    requires
        0 <= i,
        i + a.len() + b.len() <= lines.len(),
        lines.subrange(i, i + a.len() + b.len()) == a + b,
    ensures
        lines.subrange(i, i + a.len()) == a,
        lines.subrange(i + a.len(), i + a.len() + b.len()) == b,
{
    let whole = lines.subrange(i, i + a.len() + b.len());
    assert forall|k: int| 0 <= k < a.len() implies #[trigger] lines[i + k] == a[k] by {
        assert(whole[k] == lines[i + k]);
        assert((a + b)[k] == a[k]);
    }
    assert forall|k: int| 0 <= k < b.len() implies #[trigger] lines[i + a.len() + k] == b[k] by {
        assert(whole[a.len() + k] == lines[i + a.len() + k]);
        assert((a + b)[a.len() + k] == b[k]);
    }
    assert(lines.subrange(i, i + a.len()) =~= a);
    let second = lines.subrange(i + a.len(), i + a.len() + b.len());
    assert forall|k: int| 0 <= k < b.len() implies #[trigger] second[k] == b[k] by {
        assert(lines[i + a.len() + k] == b[k]);
    }
    assert(second =~= b);
}

/// Filling a fresh node from the lines that a well-formed tree renders below its
/// heading rebuilds that tree.
proof fn lemma_fill_tree(lines: Seq<Seq<char>>, t: Outline, i: int)
    requires
        well_formed(t, t.depth),
        0 <= i,
        i + body(t).len() <= lines.len(),
        lines.subrange(i, i + body(t).len()) == body(t),
        i + body(t).len() == lines.len() || 1 <= marker_count(lines[i + body(t).len()]) <= t.depth,
    ensures
        fill(lines, leaf(t.depth, t.heading), i) == (t, i + body(t).len()),
    decreases t,
{
    let n0 = leaf(t.depth, t.heading);
    let m = t.content.len();
    let ra = render_all(t.children);
    lemma_subrange_split(lines, i, t.content, ra);
    assert forall|k: int| 0 <= k < m implies marker_count(#[trigger] t.content[k]) == 0 by {}
    lemma_fill_content(lines, n0, i, t.content);
    let n1 = Outline { content: n0.content + t.content, ..n0 };
    assert(n1.content =~= t.content);
    lemma_fill_children(lines, n1, t.children, i + m);
    assert(n1.children + t.children =~= t.children);
}

/// Filling a node from the lines that a run of well-formed subtrees renders
/// appends those subtrees to its children.
proof fn lemma_fill_children(lines: Seq<Seq<char>>, node: Outline, cs: Seq<Outline>, i: int)
    requires
        forall|k: int| 0 <= k < cs.len() ==> well_formed(#[trigger] cs[k], node.depth + 1),
        0 <= i,
        i + render_all(cs).len() <= lines.len(),
        lines.subrange(i, i + render_all(cs).len()) == render_all(cs),
        i + render_all(cs).len() == lines.len() || 1 <= marker_count(
            lines[i + render_all(cs).len()],
        ) <= node.depth,
    ensures
        fill(lines, node, i) == (
        Outline { children: node.children + cs, ..node },
        i + render_all(cs).len(),
        ),
    decreases cs,
{
    if cs.len() == 0 {
        assert(node.children + cs =~= node.children);
    } else {
        let c = cs[0];
        let rest = cs.drop_first();
        let d = node.depth;
        lemma_render_all_first(cs);
        let hl = heading_line(d + 1, c.heading);
        assert(render(c) =~= seq![hl] + body(c));
        let e = i + render_all(cs).len();
        let ec = i + 1 + body(c).len();
        assert(render_all(cs) =~= seq![hl] + (body(c) + render_all(rest)));
        lemma_subrange_split(lines, i, seq![hl], body(c) + render_all(rest));
        lemma_subrange_split(lines, i + 1, body(c), render_all(rest));
        assert(lines[i] == lines.subrange(i, i + 1)[0]);
        lemma_title_of_heading_line(d + 1, c.heading);
        if rest.len() > 0 {
            lemma_render_all_first(rest);
            let c2 = rest[0];
            assert(well_formed(c2, d + 1));
            assert(render(c2) =~= seq![heading_line(d + 1, c2.heading)] + body(c2));
            assert(lines[ec] == lines.subrange(ec, e)[0]);
            lemma_title_of_heading_line(d + 1, c2.heading);
        } else {
            assert(ec == e);
        }
        lemma_fill_tree(lines, c, i + 1);
        let n2 = Outline { children: node.children.push(c), ..node };
        assert(forall|k: int| 0 <= k < rest.len() ==> #[trigger] rest[k] == cs[k + 1]);
        lemma_fill_children(lines, n2, rest, ec);
        assert(n2.children + rest =~= node.children + cs);
    }
}

/// Normalization is a fixed point: parsing what a parsed document renders gives
/// back the same tree.
pub proof fn law_build_render_build(lines: Seq<Seq<char>>)
    ensures
        build(render(build(lines))) == build(lines),
{
    let root = leaf(0, Seq::empty());
    assert(trim_start(Seq::<char>::empty()) == Seq::<char>::empty());
    assert(trim_end(Seq::<char>::empty()) == Seq::<char>::empty());
    assert(well_formed(root, 0));
    lemma_fill_well_formed(lines, root, 0);
    lemma_fill_stops(lines, root, 0);
    let t = build(lines);
    let out = render(t);
    assert(out =~= body(t));
    assert(out.subrange(0, out.len() as int) =~= out);
    lemma_fill_tree(out, t, 0);
}

/// A text split into lines: each newline ends the current line and starts a new
/// one, and every other character extends the current line.
pub open spec fn split_lines(s: Seq<char>) -> Seq<Seq<char>>
    decreases s.len(),
{
    if s.len() == 0 {
        seq![Seq::empty()]
    } else {
        let p = split_lines(s.drop_last());
        if s.last() == '\n' {
            p.push(Seq::empty())
        } else {
            p.update(p.len() - 1, p.last().push(s.last()))
        }
    }
}

proof fn lemma_split_nonempty(s: Seq<char>)
    ensures
        split_lines(s).len() >= 1,
    decreases s.len(),
{
    if s.len() > 0 {
        lemma_split_nonempty(s.drop_last());
    }
}

proof fn lemma_split_extend(a: Seq<char>, b: Seq<char>)
    requires
        !b.contains('\n'),
    ensures
        split_lines(a + b) == split_lines(a).update(
            split_lines(a).len() - 1,
            split_lines(a).last() + b,
        ),
    decreases b.len(),
{
    lemma_split_nonempty(a);
    let p = split_lines(a);
    if b.len() == 0 {
        assert(a + b =~= a);
        assert(p.last() + b =~= p.last());
        assert(p.update(p.len() - 1, p.last() + b) =~= p);
    } else {
        let b1 = b.drop_last();
        assert(!b1.contains('\n')) by {
            if b1.contains('\n') {
                let k = choose|k: int| 0 <= k < b1.len() && b1[k] == '\n';
                assert(b[k] == '\n');
            }
        }
        lemma_split_extend(a, b1);
        assert((a + b).drop_last() =~= a + b1);
        assert(b.last() != '\n') by {
            assert(b[b.len() - 1] == b.last());
        }
        assert((a + b).last() == b.last());
        let q = split_lines(a + b1);
        assert(q.len() == p.len());
        assert(q.last() == p.last() + b1);
        assert(q.last().push(b.last()) =~= p.last() + b);
        assert(split_lines(a + b) == q.update(q.len() - 1, q.last().push(b.last())));
        assert(q.update(q.len() - 1, q.last().push(b.last())) =~= p.update(
            p.len() - 1,
            p.last() + b,
        ));
    }
}

/// Display equivalence: the text of a non-empty rendering whose lines hold no
/// newline splits back into exactly those lines.
pub proof fn law_split_join(ls: Seq<Seq<char>>)
    requires
        ls.len() >= 1,
        forall|k: int| 0 <= k < ls.len() ==> !(#[trigger] ls[k]).contains('\n'),
    ensures
        split_lines(join_lines(ls)) == ls,
    decreases ls.len(),
{
    if ls.len() == 1 {
        let e = Seq::<char>::empty();
        lemma_split_extend(e, ls[0]);
        assert(e + ls[0] =~= ls[0]);
        assert(split_lines(e).update(0, split_lines(e).last() + ls[0]) =~= ls);
    } else {
        let init = ls.drop_last();
        law_split_join(init);
        let a = join_lines(init) + seq!['\n'];
        assert(a.drop_last() =~= join_lines(init));
        assert(split_lines(a) == init.push(Seq::empty()));
        lemma_split_extend(a, ls.last());
        assert(Seq::<char>::empty() + ls.last() =~= ls.last());
        assert(init.push(Seq::empty()).update(init.len() as int, ls.last()) =~= ls);
    }
}

/// Display equivalence for an outline: when its rendering is not empty and no
/// rendered line holds a newline, the display text splits back into the lines
/// that `render` gives.
pub proof fn law_display_lines(t: Outline)
    requires
        render(t).len() >= 1,
        forall|k: int| 0 <= k < render(t).len() ==> !(#[trigger] render(t)[k]).contains('\n'),
    ensures
        split_lines(join_lines(render(t))) == render(t),
{
    law_split_join(render(t));
}

/// No line holds a newline.
pub open spec fn newline_free(ls: Seq<Seq<char>>) -> bool {
    forall|k: int| 0 <= k < ls.len() ==> !(#[trigger] ls[k]).contains('\n')
}

proof fn lemma_newline_free_concat(a: Seq<Seq<char>>, b: Seq<Seq<char>>)
    ensures
        newline_free(a + b) <==> newline_free(a) && newline_free(b),
{
    if newline_free(a + b) {
        assert forall|k: int| 0 <= k < a.len() implies !(#[trigger] a[k]).contains('\n') by {
            assert((a + b)[k] == a[k]);
        }
        assert forall|k: int| 0 <= k < b.len() implies !(#[trigger] b[k]).contains('\n') by {
            assert((a + b)[a.len() + k] == b[k]);
        }
    }
    if newline_free(a) && newline_free(b) {
        assert forall|k: int| 0 <= k < (a + b).len() implies !(#[trigger] (a + b)[k]).contains(
            '\n',
        ) by {
            if k < a.len() {
                assert((a + b)[k] == a[k]);
            } else {
                assert((a + b)[k] == b[k - a.len()]);
            }
        }
    }
}

proof fn lemma_subrange_newline_free(s: Seq<char>, a: int, b: int)
    requires
        0 <= a <= b <= s.len(),
        !s.contains('\n'),
    ensures
        !s.subrange(a, b).contains('\n'),
{
    if s.subrange(a, b).contains('\n') {
        let k = choose|k: int| 0 <= k < b - a && s.subrange(a, b)[k] == '\n';
        assert(s[a + k] == '\n');
    }
}

proof fn lemma_trim_start_suffix(s: Seq<char>)
    ensures
        trim_start(s).len() <= s.len(),
        trim_start(s) == s.subrange(s.len() - trim_start(s).len(), s.len() as int),
    decreases s.len(),
{
    if s.len() > 0 && is_white_space(s[0]) {
        lemma_trim_start_suffix(s.drop_first());
        let t = trim_start(s);
        assert(s.drop_first().subrange(s.len() - 1 - t.len(), s.len() - 1) =~= s.subrange(
            s.len() - t.len(),
            s.len() as int,
        ));
    } else {
        assert(s.subrange(0, s.len() as int) =~= s);
    }
}

/// The title of a line without newlines holds none either.
proof fn lemma_title_newline_free(s: Seq<char>)
    requires
        !s.contains('\n'),
    ensures
        !title_of(s).contains('\n'),
{
    let m = marker_count(s);
    lemma_marker_count_le(s);
    let rest = s.subrange(m as int, s.len() as int);
    lemma_subrange_newline_free(s, m as int, s.len() as int);
    let u = trim_start(rest);
    lemma_trim_start_suffix(rest);
    lemma_subrange_newline_free(rest, rest.len() - u.len(), rest.len() as int);
    lemma_trim_end_prefix(u);
    lemma_subrange_newline_free(u, 0, trim_end(u).len() as int);
}

proof fn lemma_marker_count_le(s: Seq<char>)
    ensures
        marker_count(s) <= s.len(),
    decreases s.len(),
{
    if s.len() > 0 && s[0] == crate::line::MARKER {
        lemma_marker_count_le(s.drop_first());
    }
}

proof fn lemma_heading_line_newline_free(depth: nat, title: Seq<char>)
    requires
        !title.contains('\n'),
    ensures
        !heading_line(depth, title).contains('\n'),
{
    let h = heading_line(depth, title);
    if h.contains('\n') {
        let k = choose|k: int| 0 <= k < h.len() && h[k] == '\n';
        if k > depth {
            assert(h[k] == title[k - depth - 1]);
        }
    }
}

/// Filling a node from newline-free lines renders newline-free lines, each
/// consumed line once: the rendering grows by exactly the lines consumed.
proof fn lemma_fill_lines(lines: Seq<Seq<char>>, node: Outline, i: int)
    requires
        0 <= i <= lines.len(),
        newline_free(lines),
        newline_free(render(node)),
    ensures
        newline_free(render(fill(lines, node, i).0)),
        render(fill(lines, node, i).0).len() == render(node).len() + (fill(lines, node, i).1 - i),
    decreases lines.len() - i,
{
    if i < lines.len() {
        let level = marker_count(lines[i]);
        if level == 0 {
            let n2 = Outline { content: node.content.push(lines[i]), ..node };
            let ra = render_all(node.children);
            assert(!lines[i].contains('\n'));
            lemma_newline_free_concat(own_lines(node) + node.content, ra);
            lemma_newline_free_concat(own_lines(node), node.content);
            lemma_newline_free_concat(node.content, seq![lines[i]]);
            assert(node.content + seq![lines[i]] =~= n2.content);
            lemma_newline_free_concat(own_lines(node), n2.content);
            lemma_newline_free_concat(own_lines(node) + n2.content, ra);
            assert(own_lines(n2) == own_lines(node));
            lemma_fill_lines(lines, n2, i + 1);
        } else if level > node.depth {
            let c0 = leaf(node.depth + 1, title_of(lines[i]));
            assert(render_all(c0.children) == Seq::<Seq<char>>::empty());
            assert(render(c0) =~= seq![heading_line(c0.depth, c0.heading)]);
            assert(!lines[i].contains('\n'));
            lemma_title_newline_free(lines[i]);
            lemma_heading_line_newline_free(c0.depth, c0.heading);
            lemma_fill_lines(lines, c0, i + 1);
            lemma_fill_stops(lines, c0, i + 1);
            let (child, j) = fill(lines, c0, i + 1);
            let n2 = Outline { children: node.children.push(child), ..node };
            lemma_render_push_child(node, child);
            lemma_newline_free_concat(render(node), render(child));
            lemma_fill_lines(lines, n2, j);
        }
    }
}

/// Display equivalence for a parsed document: when the input has at least one
/// line and no line holds a newline, the rendering has one line per input line,
/// none with a newline, and the display text splits back into exactly the
/// lines that `render` gives.
pub proof fn law_display_of_parsed(lines: Seq<Seq<char>>)
    requires
        lines.len() >= 1,
        newline_free(lines),
    ensures
        render(build(lines)).len() == lines.len(),
        newline_free(render(build(lines))),
        split_lines(join_lines(render(build(lines)))) == render(build(lines)),
{
    let root = leaf(0, Seq::empty());
    assert(render_all(root.children) == Seq::<Seq<char>>::empty());
    assert(render(root) =~= Seq::<Seq<char>>::empty());
    lemma_fill_lines(lines, root, 0);
    lemma_fill_stops(lines, root, 0);
    law_split_join(render(build(lines)));
}

/// The run of content lines that starts at position `i`: every line up to the
/// next heading line or the end.
pub open spec fn content_run(lines: Seq<Seq<char>>, i: int) -> Seq<Seq<char>>
    decreases lines.len() - i,
{
    if i < 0 || i >= lines.len() || marker_count(lines[i]) > 0 {
        Seq::empty()
    } else {
        seq![lines[i]] + content_run(lines, i + 1)
    }
}

proof fn lemma_fill_keeps_content(lines: Seq<Seq<char>>, node: Outline, i: int)
    requires
        0 <= i <= lines.len(),
        i == lines.len() || marker_count(lines[i]) >= 1,
    ensures
        fill(lines, node, i).0.content == node.content,
    decreases lines.len() - i,
{
    if i < lines.len() && marker_count(lines[i]) > node.depth {
        let c0 = leaf(node.depth + 1, title_of(lines[i]));
        lemma_fill_stops(lines, c0, i + 1);
        let (child, j) = fill(lines, c0, i + 1);
        lemma_fill_keeps_content(lines, Outline { children: node.children.push(child), ..node }, j);
    }
}

proof fn lemma_fill_content_run(lines: Seq<Seq<char>>, node: Outline, i: int)
    requires
        0 <= i <= lines.len(),
        node.children.len() == 0,
    ensures
        fill(lines, node, i).0.content == node.content + content_run(lines, i),
    decreases lines.len() - i,
{
    if i < lines.len() && marker_count(lines[i]) == 0 {
        let n2 = Outline { content: node.content.push(lines[i]), ..node };
        lemma_fill_content_run(lines, n2, i + 1);
        assert(n2.content + content_run(lines, i + 1) =~= node.content + content_run(lines, i));
    } else {
        assert(node.content + content_run(lines, i) =~= node.content);
        lemma_fill_keeps_content(lines, node, i);
    }
}

/// Content ordering: a node filled from position `i` before it has any subtree
/// takes as content exactly the content lines that directly follow, up to the
/// next heading line. The lines after that heading go to the node it opens or
/// to a later one, never back to this node; so the root holds the lines before
/// the first heading, and each heading the lines between it and the next.
pub proof fn law_content_follows_heading(lines: Seq<Seq<char>>, node: Outline, i: int)
    requires
        0 <= i <= lines.len(),
        node.children.len() == 0,
    ensures
        fill(lines, node, i).0.content == node.content + content_run(lines, i),
        build(lines).content == content_run(lines, 0),
{
    lemma_fill_content_run(lines, node, i);
    lemma_fill_content_run(lines, leaf(0, Seq::empty()), 0);
    assert(Seq::<Seq<char>>::empty() + content_run(lines, 0) =~= content_run(lines, 0));
}

/// Content ordering, the other half: once a heading line is reached, the node
/// being filled takes no further content. Every content line after it goes to
/// the node that heading opens, or to a later node, never to this node or to
/// one of its ancestors.
pub proof fn law_heading_closes_content(lines: Seq<Seq<char>>, node: Outline, i: int)
    requires
        0 <= i < lines.len(),
        marker_count(lines[i]) >= 1,
    ensures
        fill(lines, node, i).0.content == node.content,
{
    lemma_fill_keeps_content(lines, node, i);
}

} // verus!
