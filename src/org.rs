use crate::line::{get_heading, heading_line, marker_count, title_of, MARKER};
use vstd::prelude::*;

verus! {

/// The mathematical outline: a heading of some depth, its own content lines and
/// its subtrees, in document order.
pub struct Outline {
    pub depth: nat,
    pub heading: Seq<char>,
    pub content: Seq<Seq<char>>,
    pub children: Seq<Outline>,
}

/// A fresh node of the given depth and title, with no content and no children.
pub open spec fn leaf(depth: nat, heading: Seq<char>) -> Outline {
    Outline { depth, heading, content: Seq::empty(), children: Seq::empty() }
}

/// The text of each string.
pub open spec fn lines_of(v: Seq<String>) -> Seq<Seq<char>> {
    v.map_values(|l: String| l@)
}

/// The line that a node renders for itself: none at the root.
pub open spec fn own_lines(t: Outline) -> Seq<Seq<char>> {
    if t.depth == 0 {
        Seq::empty()
    } else {
        seq![heading_line(t.depth, t.heading)]
    }
}

/// The lines of a node, depth first: its heading line, its content, then each
/// subtree in order.
pub open spec fn render(t: Outline) -> Seq<Seq<char>>
    decreases t,
{
    own_lines(t) + t.content + render_all(t.children)
}

/// The lines of each tree in turn.
pub open spec fn render_all(ts: Seq<Outline>) -> Seq<Seq<char>>
    decreases ts,
{
    if ts.len() == 0 {
        Seq::empty()
    } else {
        render_all(ts.drop_last()) + render(ts.last())
    }
}

/// Reads `lines` from position `i` into `node`: content lines are appended to
/// its content, a heading deeper than the node opens a child one level deeper,
/// and a heading no deeper than the node ends it. Returns the filled node and
/// the position of the first line that was not consumed.
pub open spec fn fill(lines: Seq<Seq<char>>, node: Outline, i: int) -> (Outline, int)
    decreases lines.len() - i,
{
    if i < 0 || i >= lines.len() {
        (node, i)
    } else {
        let level = marker_count(lines[i]);
        if level == 0 {
            fill(
                lines,
                Outline { content: node.content.push(lines[i]), ..node },
                i + 1,
            )
        } else if level <= node.depth {
            (node, i)
        } else {
            let (child, j) = fill(lines, leaf(node.depth + 1, title_of(lines[i])), i + 1);
            if i < j <= lines.len() {
                fill(lines, Outline { children: node.children.push(child), ..node }, j)
            } else {
                (node, i)
            }
        }
    }
}

/// The outline that `lines` parse to: a root of depth 0 filled from the first line.
pub open spec fn build(lines: Seq<Seq<char>>) -> Outline {
    fill(lines, leaf(0, Seq::empty()), 0).0
}

/// A filled node keeps its depth and heading, and stops at the end of the input or
/// at a heading that is no deeper than the node.
pub proof fn lemma_fill_stops(lines: Seq<Seq<char>>, node: Outline, i: int)
    requires
        0 <= i <= lines.len(),
    ensures
        i <= fill(lines, node, i).1 <= lines.len(),
        fill(lines, node, i).0.depth == node.depth,
        fill(lines, node, i).0.heading == node.heading,
        fill(lines, node, i).1 == lines.len() || (1 <= marker_count(
            lines[fill(lines, node, i).1],
        ) <= node.depth),
    decreases lines.len() - i,
{
    if i < lines.len() {
        let level = marker_count(lines[i]);
        if level == 0 {
            lemma_fill_stops(lines, Outline { content: node.content.push(lines[i]), ..node }, i + 1);
        } else if level > node.depth {
            let (child, j) = fill(lines, leaf(node.depth + 1, title_of(lines[i])), i + 1);
            lemma_fill_stops(lines, leaf(node.depth + 1, title_of(lines[i])), i + 1);
            lemma_fill_stops(lines, Outline { children: node.children.push(child), ..node }, j);
        }
    }
}

/// An outline document: a tree of headings, each with its depth, its title,
/// its own content lines and its subtrees.
#[derive(Debug, PartialEq)]
pub struct Org {
    depth: usize,
    heading: String,
    content: Vec<String>,
    subtrees: Vec<Org>,
}

spec fn outline_of(o: Org) -> Outline
    decreases o,
{
    Outline {
        depth: o.depth as nat,
        heading: o.heading@,
        content: lines_of(o.content@),
        children: Seq::new(
            o.subtrees@.len(),
            |i: int|
                if 0 <= i < o.subtrees@.len() {
                    outline_of(o.subtrees@[i])
                } else {
                    leaf(0, Seq::empty())
                },
        ),
    }
}

impl View for Org {
    type V = Outline;

    closed spec fn view(&self) -> Outline {
        outline_of(*self)
    }
}

/// Declares std::io::Error, the error of reading and writing files, so that
/// parsing keeps the `io::Result` interface that file reading shares. Opaque:
/// nothing is assumed of its values.
#[verifier::external_type_specification]
#[verifier::external_body]
pub struct ExIoError(std::io::Error);

/// The outline of each tree.
pub open spec fn outlines_of(v: Seq<Org>) -> Seq<Outline> {
    Seq::new(v.len(), |i: int| v[i]@)
}

/// The lines joined into one text, a newline between each two of them.
pub open spec fn join_lines(ls: Seq<Seq<char>>) -> Seq<char>
    decreases ls.len(),
{
    if ls.len() == 0 {
        Seq::empty()
    } else if ls.len() == 1 {
        ls[0]
    } else {
        join_lines(ls.drop_last()) + seq!['\n'] + ls.last()
    }
}

/// Relies on String::push_str: appends `t` to the end of `s`.
#[verifier::external_body]
fn push_str(s: &mut String, t: &str)
    ensures
        final(s)@ == old(s)@ + t@,
{
    s.push_str(t)
}

impl Org {
    proof fn lemma_view(&self)
        ensures
            self@.depth == self.depth,
            self@.heading == self.heading@,
            self@.content == lines_of(self.content@),
            self@.children == outlines_of(self.subtrees@),
    {
        assert forall|i: int| 0 <= i < self.subtrees@.len() implies #[trigger] self@.children[i]
            == outlines_of(self.subtrees@)[i] by {}
        assert(self@.children =~= outlines_of(self.subtrees@));
    }

    /// An empty root: depth 0, no heading, no content and no subtrees.
    pub fn new() -> (r: Org)
        ensures
            r@ == leaf(0, Seq::empty()),
    {
        let r = Org { depth: 0, heading: String::new(), content: Vec::new(), subtrees: Vec::new() };
        proof {
            r.lemma_view();
            assert(r@.content =~= Seq::<Seq<char>>::empty());
            assert(r@.children =~= Seq::<Outline>::empty());
        }
        r
    }

    /// Parses `contents`, one line per string, into an outline rooted at depth 0.
    pub fn from_vec(contents: &[String]) -> (r: Result<Org, std::io::Error>)
        ensures
            r matches Ok(o) && o@ == build(lines_of(contents@)),
    {
        let mut org = Org::new();
        process_subtree(&mut org, contents, 0);
        Ok(org)
    }

    /// The lines of the outline, depth first: each heading line, then its
    /// content, then its subtrees. The root renders no heading line.
    pub fn to_vec(&self) -> (r: Vec<String>)
        ensures
            lines_of(r@) == render(self@),
        decreases self,
    {
        let mut contents: Vec<String> = Vec::new();
        proof {
            self.lemma_view();
        }
        if self.depth > 0 {
            contents.push(self.full_heading());
        }
        proof {
            assert(lines_of(contents@) =~= own_lines(self@));
        }
        let mut i: usize = 0;
        while i < self.content.len()
            invariant
                i <= self.content.len(),
                self@.content == lines_of(self.content@),
                lines_of(contents@) == own_lines(self@) + self@.content.subrange(0, i as int),
            decreases self.content.len() - i,
        {
            let ghost before = contents@;
            contents.push(self.content[i].clone());
            i = i + 1;
            proof {
                assert(lines_of(contents@) =~= lines_of(before).push(self@.content[i - 1]));
                assert(lines_of(contents@) =~= own_lines(self@) + self@.content.subrange(
                    0,
                    i as int,
                ));
            }
        }
        proof {
            assert(self@.content.subrange(0, i as int) =~= self@.content);
            assert(self@.children.subrange(0, 0) =~= Seq::<Outline>::empty());
        }
        let mut k: usize = 0;
        while k < self.subtrees.len()
            invariant
                k <= self.subtrees.len(),
                self@.children == outlines_of(self.subtrees@),
                lines_of(contents@) == own_lines(self@) + self@.content + render_all(
                    self@.children.subrange(0, k as int),
                ),
            decreases self.subtrees.len() - k,
        {
            let mut sub = self.subtrees[k].to_vec();
            let ghost before = contents@;
            let ghost added = sub@;
            contents.append(&mut sub);
            proof {
                let done = self@.children.subrange(0, k + 1);
                assert(done.drop_last() =~= self@.children.subrange(0, k as int));
                assert(lines_of(contents@) =~= lines_of(before) + lines_of(added));
            }
            k = k + 1;
        }
        proof {
            assert(self@.children.subrange(0, k as int) =~= self@.children);
        }
        contents
    }

    /// The outline as one text: its lines joined with newlines, with no newline
    /// after the last line.
    pub fn to_string(&self) -> (r: String)
        ensures
            r@ == join_lines(render(self@)),
    {
        let lines = self.to_vec();
        let ghost ls = lines_of(lines@);
        let mut r = String::new();
        let mut i: usize = 0;
        while i < lines.len()
            invariant
                i <= lines.len(),
                ls == lines_of(lines@),
                r@ == join_lines(ls.subrange(0, i as int)),
            decreases lines.len() - i,
        {
            if i > 0 {
                push_str(&mut r, "\n");
            }
            push_str(&mut r, lines[i].as_str());
            proof {
                reveal_strlit("\n");
                let next = ls.subrange(0, i + 1);
                assert(next.drop_last() =~= ls.subrange(0, i as int));
                if i == 0 {
                    assert(r@ =~= next[0]);
                } else {
                    assert(r@ =~= join_lines(next.drop_last()) + seq!['\n'] + next.last());
                }
            }
            i = i + 1;
        }
        proof {
            assert(ls.subrange(0, i as int) =~= ls);
        }
        r
    }

    /// The depth of this node: the number of markers of its heading line, 0 at
    /// the root.
    pub fn depth(&self) -> (r: usize)
        ensures
            r == self@.depth,
    {
        proof {
            self.lemma_view();
        }
        self.depth
    }

    /// The title of this node, without markers.
    pub fn heading(&self) -> (r: &str)
        ensures
            r@ == self@.heading,
    {
        proof {
            self.lemma_view();
        }
        self.heading.as_str()
    }

    /// Replaces the title of this node.
    pub fn set_heading(&mut self, heading: &str)
        ensures
            final(self)@ == (Outline { heading: heading@, ..old(self)@ }),
    {
        proof {
            old(self).lemma_view();
        }
        self.heading = heading.to_owned();
        proof {
            self.lemma_view();
        }
    }

    /// The heading line of this node, markers included: empty at the root.
    pub fn full_heading(&self) -> (r: String)
        ensures
            r@ == if self@.depth == 0 {
                Seq::empty()
            } else {
                heading_line(self@.depth, self@.heading)
            },
    {
        proof {
            self.lemma_view();
        }
        let mut r = String::new();
        if self.depth == 0 {
            return r;
        }
        let mut i: usize = 0;
        while i < self.depth
            invariant
                i <= self.depth,
                r@ == Seq::new(i as nat, |k: int| MARKER),
            decreases self.depth - i,
        {
            push_str(&mut r, "*");
            proof {
                reveal_strlit("*");
                assert(r@ =~= Seq::new((i + 1) as nat, |k: int| MARKER));
            }
            i = i + 1;
        }
        push_str(&mut r, " ");
        push_str(&mut r, self.heading.as_str());
        proof {
            reveal_strlit(" ");
            assert(r@ =~= heading_line(self@.depth, self@.heading));
        }
        r
    }

    /// The content lines of this node.
    pub fn content_as_ref(&self) -> (r: &Vec<String>)
        ensures
            lines_of(r@) == self@.content,
    {
        proof {
            self.lemma_view();
        }
        &self.content
    }

    /// The content lines of this node, to change in place.
    pub fn content_as_mut(&mut self) -> (r: &mut Vec<String>)
        ensures
            lines_of(r@) == old(self)@.content,
            final(self)@ == (Outline { content: lines_of(final(r)@), ..old(self)@ }),
    {
        proof {
            old(self).lemma_view();
        }
        &mut self.content
    }

    /// The subtrees of this node.
    pub fn subtrees_as_ref(&self) -> (r: &Vec<Org>)
        ensures
            outlines_of(r@) == self@.children,
    {
        proof {
            self.lemma_view();
        }
        &self.subtrees
    }

    /// The subtrees of this node, to change in place.
    pub fn subtrees_as_mut(&mut self) -> (r: &mut Vec<Org>)
        ensures
            outlines_of(r@) == old(self)@.children,
            final(self)@.depth == old(self)@.depth,
            final(self)@.heading == old(self)@.heading,
            final(self)@.content == old(self)@.content,
            final(self)@.children =~= outlines_of(final(r)@),
    {
        proof {
            old(self).lemma_view();
        }
        &mut self.subtrees
    }
}

/// A copy of `o`, subtree by subtree.
fn clone_tree(o: &Org) -> (r: Org)
    ensures
        r@ == o@,
    decreases o,
{
    let mut subtrees: Vec<Org> = Vec::new();
    let mut i: usize = 0;
    while i < o.subtrees.len()
        invariant
            i <= o.subtrees.len(),
            outlines_of(subtrees@) == outlines_of(o.subtrees@).subrange(0, i as int),
        decreases o.subtrees.len() - i,
    {
        let t = clone_tree(&o.subtrees[i]);
        let ghost before = subtrees@;
        subtrees.push(t);
        i = i + 1;
        proof {
            assert(outlines_of(subtrees@) =~= outlines_of(before).push(t@));
            assert(outlines_of(subtrees@) =~= outlines_of(o.subtrees@).subrange(0, i as int));
        }
    }
    let r = Org {
        depth: o.depth,
        heading: o.heading.clone(),
        content: o.content.clone(),
        subtrees,
    };
    proof {
        r.lemma_view();
        o.lemma_view();
        assert(outlines_of(o.subtrees@).subrange(0, i as int) =~= outlines_of(o.subtrees@));
        assert(lines_of(r.content@) =~= lines_of(o.content@));
    }
    r
}

impl Clone for Org {
    /// A copy of the whole tree.
    fn clone(&self) -> (r: Org)
        ensures
            r@ == self@,
    {
        clone_tree(self)
    }
}

impl Default for Org {
    /// An empty root, as `new` makes it.
    fn default() -> (r: Org)
        ensures
            r@ == leaf(0, Seq::empty()),
    {
        Org::new()
    }
}

/// Fills `org` from `contents`, starting at `index`, as `fill` states; returns the
/// position of the first line that was not consumed.
fn process_subtree(org: &mut Org, contents: &[String], index: usize) -> (r: usize)
    requires
        index <= contents.len(),
        old(org).depth + (contents.len() - index) <= usize::MAX,
    ensures
        (final(org)@, r as int) == fill(lines_of(contents@), old(org)@, index as int),
    decreases contents.len() - index,
{
    let ghost lines = lines_of(contents@);
    let depth = org.depth;
    let mut i: usize = index;
    while i < contents.len()
        invariant
            lines == lines_of(contents@),
            index <= i <= contents.len(),
            org.depth == depth,
            depth + (contents.len() - i) <= usize::MAX,
            fill(lines, org@, i as int) == fill(lines, old(org)@, index as int),
        decreases contents.len() - i,
    {
        let line = &contents[i];
        let (heading, level) = get_heading(line.as_str());
        proof {
            org.lemma_view();
            assert(lines[i as int] == line@);
        }
        if level == 0 {
            let ghost prev = *org;
            org.content.push(line.clone());
            proof {
                org.lemma_view();
                assert(org.content@.drop_last() == prev.content@);
                assert(lines_of(org.content@) =~= lines_of(prev.content@).push(line@));
                assert(org@.children =~= prev@.children);
                assert(org@ == Outline { content: prev@.content.push(lines[i as int]), ..prev@ });
            }
            i = i + 1;
        } else if level <= depth {
            return i;
        } else {
            let mut subtree = Org {
                depth: depth + 1,
                heading: heading,
                content: Vec::new(),
                subtrees: Vec::new(),
            };
            proof {
                subtree.lemma_view();
                assert(subtree@.content =~= Seq::<Seq<char>>::empty());
                assert(subtree@.children =~= Seq::<Outline>::empty());
                assert(subtree@ == leaf((depth + 1) as nat, title_of(lines[i as int])));
            }
            let j = process_subtree(&mut subtree, contents, i + 1);
            proof {
                lemma_fill_stops(lines, leaf((depth + 1) as nat, title_of(lines[i as int])), i + 1);
            }
            let ghost prev = *org;
            org.subtrees.push(subtree);
            proof {
                org.lemma_view();
                assert(org.subtrees@.drop_last() == prev.subtrees@);
                assert(org@.children =~= prev@.children.push(subtree@));
                assert(org@.content =~= prev@.content);
            }
            i = j;
        }
    }
    i
}

} // verus!
