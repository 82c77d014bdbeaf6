use vstd::prelude::*;

use crate::content::{closed_node, pushed_nodes, Content, LineClass, Node, RegionState};
use crate::text::views;

verus! {

/// The line that a node was made from: a text line, or a region's start line.
pub open spec fn own_line(n: Node) -> Seq<char> {
    match n {
        Node::Line { text, .. } => text@,
        Node::Region { region, .. } => region.start_line@,
    }
}

/// The end line of the region `nodes[r]`, if it was closed.
pub open spec fn end_of(nodes: Seq<Node>, r: usize) -> Seq<Seq<char>> {
    match nodes[r as int] {
        Node::Region { region, .. } => match region.state {
            RegionState::Closed { end_line, .. } => seq![end_line@],
            RegionState::Open => seq![],
        },
        Node::Line { .. } => seq![],
    }
}

/// The end lines of the walked regions `pending` (outermost first) that are no shallower
/// than `d`, innermost first: the regions that end before a node of depth `d`.
pub open spec fn end_lines(nodes: Seq<Node>, pending: Seq<usize>, d: nat) -> Seq<Seq<char>>
    decreases pending.len(),
{
    if pending.len() == 0 || nodes[pending.last() as int].depth() < d {
        seq![]
    } else {
        end_of(nodes, pending.last()) + end_lines(nodes, pending.drop_last(), d)
    }
}

/// The walked regions that remain after those no shallower than `d` ended.
pub open spec fn kept(nodes: Seq<Node>, pending: Seq<usize>, d: nat) -> Seq<usize>
    decreases pending.len(),
{
    if pending.len() == 0 || nodes[pending.last() as int].depth() < d {
        pending
    } else {
        kept(nodes, pending.drop_last(), d)
    }
}

/// The regions being walked once node `i` was reached: those it ends are left, and it
/// joins them if it is a region.
pub open spec fn next_pending(nodes: Seq<Node>, i: int, pending: Seq<usize>) -> Seq<usize> {
    let rest = kept(nodes, pending, nodes[i].depth());
    if nodes[i] is Region {
        rest.push(i as usize)
    } else {
        rest
    }
}

/// The lines of the nodes from `i` on, the regions `pending` being walked: each node's own
/// line, each closed region's end line after its content.
pub open spec fn replay_from(nodes: Seq<Node>, i: int, pending: Seq<usize>) -> Seq<Seq<char>>
    decreases nodes.len() - i,
{
    if i < 0 || i >= nodes.len() {
        end_lines(nodes, pending, 0)
    } else {
        end_lines(nodes, pending, nodes[i].depth()) + seq![own_line(nodes[i])] + replay_from(
            nodes,
            i + 1,
            next_pending(nodes, i, pending),
        )
    }
}

/// The lines of a content tree in the order in which they came.
pub open spec fn replay(nodes: Seq<Node>) -> Seq<Seq<char>> {
    replay_from(nodes, 0, seq![])
}

/// Appends the end line of the region `nodes[r]` if it was closed.
fn push_end_of(out: &mut Vec<String>, nodes: &Vec<Node>, r: usize)
    requires
        r < nodes@.len(),
    ensures
        views(final(out)@) == views(old(out)@) + end_of(nodes@, r),
{
    match &nodes[r] {
        Node::Region { region, .. } => match &region.state {
            RegionState::Closed { end_line, .. } => {
                out.push(end_line.clone());
                proof {
                    assert(views(out@) =~= views(old(out)@) + end_of(nodes@, r));
                }
            },
            RegionState::Open => {
                proof {
                    assert(views(out@) =~= views(old(out)@) + end_of(nodes@, r));
                }
            },
        },
        Node::Line { .. } => {
            proof {
                assert(views(out@) =~= views(old(out)@) + end_of(nodes@, r));
            }
        },
    }
}

/// Pops the walked regions no shallower than `d`, appending their end lines.
fn close_walked(out: &mut Vec<String>, pending: &mut Vec<usize>, nodes: &Vec<Node>, d: usize)
    requires
        forall|k: int| 0 <= k < old(pending)@.len() ==> #[trigger] old(pending)@[k] < nodes@.len(),
    ensures
        views(final(out)@) == views(old(out)@) + end_lines(nodes@, old(pending)@, d as nat),
        final(pending)@ == kept(nodes@, old(pending)@, d as nat),
        forall|k: int| 0 <= k < final(pending)@.len() ==> #[trigger] final(pending)@[k] < nodes@.len(),
{
    proof {
        assert(views(out@) + end_lines(nodes@, pending@, d as nat) =~= views(old(out)@) + end_lines(
            nodes@,
            old(pending)@,
            d as nat,
        ));
    }
    while pending.len() > 0 && nodes[pending[pending.len() - 1]].depth_of() >= d
        invariant
            forall|k: int| 0 <= k < pending@.len() ==> #[trigger] pending@[k] < nodes@.len(),
            views(out@) + end_lines(nodes@, pending@, d as nat) == views(old(out)@) + end_lines(
                nodes@,
                old(pending)@,
                d as nat,
            ),
            kept(nodes@, pending@, d as nat) == kept(nodes@, old(pending)@, d as nat),
        decreases pending@.len(),
    {
        let r = pending.pop().unwrap();
        let ghost before = views(out@);
        push_end_of(out, nodes, r);
        proof {
            assert(views(out@) + end_lines(nodes@, pending@, d as nat) =~= before + (end_of(
                nodes@,
                r,
            ) + end_lines(nodes@, pending@, d as nat)));
        }
    }
    proof {
        assert(end_lines(nodes@, pending@, d as nat) =~= Seq::<Seq<char>>::empty());
        assert(views(out@) + Seq::<Seq<char>>::empty() =~= views(out@));
    }
}

impl Content {
    /// The lines from which the tree was built, in the order in which they came: each
    /// region's start line before its content, and its end line, if any, after it.
    pub fn replay_lines(&self) -> (r: Vec<String>)
        ensures
            views(r@) == replay(self.nodes()),
    {
        let nodes = self.nodes_ref();
        let mut out: Vec<String> = Vec::new();
        let mut pending: Vec<usize> = Vec::new();
        let mut i: usize = 0;
        proof {
            assert(views(out@) + replay(nodes@) =~= replay(nodes@));
        }
        while i < nodes.len()
            invariant
                nodes@ == self.nodes(),
                0 <= i <= nodes@.len(),
                forall|k: int| 0 <= k < pending@.len() ==> #[trigger] pending@[k] < nodes@.len(),
                views(out@) + replay_from(nodes@, i as int, pending@) == replay(nodes@),
            decreases nodes@.len() - i,
        {
            let d = nodes[i].depth_of();
            let ghost p0 = pending@;
            let ghost o0 = views(out@);
            close_walked(&mut out, &mut pending, nodes, d);
            let own = match &nodes[i] {
                Node::Line { text, .. } => text.clone(),
                Node::Region { region, .. } => region.start_line.clone(),
            };
            out.push(own);
            let is_region = match &nodes[i] {
                Node::Region { .. } => true,
                Node::Line { .. } => false,
            };
            if is_region {
                pending.push(i);
            }
            proof {
                assert(views(out@) =~= o0 + end_lines(nodes@, p0, d as nat) + seq![own_line(nodes@[i as int])]);
                assert(views(out@) + replay_from(nodes@, i + 1, pending@) =~= o0 + replay_from(
                    nodes@,
                    i as int,
                    p0,
                ));
            }
            i = i + 1;
        }
        let ghost o1 = views(out@);
        let ghost p1 = pending@;
        close_walked(&mut out, &mut pending, nodes, 0);
        proof {
            assert(views(out@) =~= o1 + replay_from(nodes@, i as int, p1));
        }
        out
    }
}

/// The lines that the walk from node `i` emits before it reaches the end.
pub open spec fn walk_lines(nodes: Seq<Node>, i: int, pending: Seq<usize>) -> Seq<Seq<char>>
    decreases nodes.len() - i,
{
    if i < 0 || i >= nodes.len() {
        seq![]
    } else {
        end_lines(nodes, pending, nodes[i].depth()) + seq![own_line(nodes[i])] + walk_lines(
            nodes,
            i + 1,
            next_pending(nodes, i, pending),
        )
    }
}

/// The regions being walked when the walk from node `i` reaches the end.
pub open spec fn walk_pending(nodes: Seq<Node>, i: int, pending: Seq<usize>) -> Seq<usize>
    decreases nodes.len() - i,
{
    if i < 0 || i >= nodes.len() {
        pending
    } else {
        walk_pending(nodes, i + 1, next_pending(nodes, i, pending))
    }
}

proof fn lemma_replay_split(nodes: Seq<Node>, i: int, pending: Seq<usize>)
    requires
        0 <= i <= nodes.len(),
    ensures
        replay_from(nodes, i, pending) == walk_lines(nodes, i, pending) + end_lines(
            nodes,
            walk_pending(nodes, i, pending),
            0,
        ),
    decreases nodes.len() - i,
{
    if i < nodes.len() {
        let next = next_pending(nodes, i, pending);
        lemma_replay_split(nodes, i + 1, next);
        let a = end_lines(nodes, pending, nodes[i].depth()) + seq![own_line(nodes[i])];
        assert(a + (walk_lines(nodes, i + 1, next) + end_lines(nodes, walk_pending(nodes, i + 1, next), 0))
            =~= (a + walk_lines(nodes, i + 1, next)) + end_lines(nodes, walk_pending(nodes, i + 1, next), 0));
    } else {
        assert(walk_lines(nodes, i, pending) + end_lines(nodes, pending, 0) =~= end_lines(nodes, pending, 0));
    }
}

/// Ending the walked regions no shallower than `0` is ending those no shallower than `d`,
/// then the rest.
proof fn lemma_end_lines_split(nodes: Seq<Node>, pending: Seq<usize>, d: nat)
    ensures
        end_lines(nodes, pending, 0) == end_lines(nodes, pending, d) + end_lines(
            nodes,
            kept(nodes, pending, d),
            0,
        ),
    decreases pending.len(),
{
    if pending.len() == 0 || nodes[pending.last() as int].depth() < d {
        assert(end_lines(nodes, pending, d) =~= Seq::<Seq<char>>::empty());
        assert(Seq::<Seq<char>>::empty() + end_lines(nodes, pending, 0) =~= end_lines(nodes, pending, 0));
    } else {
        lemma_end_lines_split(nodes, pending.drop_last(), d);
        let e = end_of(nodes, pending.last());
        assert(e + (end_lines(nodes, pending.drop_last(), d) + end_lines(
            nodes,
            kept(nodes, pending.drop_last(), d),
            0,
        )) =~= (e + end_lines(nodes, pending.drop_last(), d)) + end_lines(
            nodes,
            kept(nodes, pending.drop_last(), d),
            0,
        ));
    }
}

/// Two trees that agree on the walked regions from position `from` on, on the depths of
/// all of them, end them alike.
proof fn lemma_end_lines_agree(a: Seq<Node>, b: Seq<Node>, pending: Seq<usize>, d: nat, from: nat)
    requires
        forall|j: int|
            0 <= j < pending.len() ==> #[trigger] pending[j] < a.len() && pending[j] < b.len()
                && a[pending[j] as int].depth() == b[pending[j] as int].depth(),
        forall|j: int|
            from <= j < pending.len() && d <= a[pending[j] as int].depth() ==> #[trigger] end_of(
                a,
                pending[j],
            ) == end_of(b, pending[j]),
        forall|j: int|
            0 <= j < from && j < pending.len() ==> #[trigger] a[pending[j] as int].depth() < d,
    ensures
        end_lines(a, pending, d) == end_lines(b, pending, d),
        kept(a, pending, d) == kept(b, pending, d),
    decreases pending.len(),
{
    if pending.len() > 0 {
        let l = pending.len() - 1;
        assert(pending[l] == pending.last());
        if a[pending.last() as int].depth() >= d {
            if l < from {
                assert(a[pending[l] as int].depth() < d);
            }
            assert(end_of(a, pending[l]) == end_of(b, pending[l]));
            let p = pending.drop_last();
            assert forall|j: int| 0 <= j < p.len() implies #[trigger] p[j] < a.len() && p[j] < b.len()
                && a[p[j] as int].depth() == b[p[j] as int].depth() by {
                assert(p[j] == pending[j]);
            }
            assert forall|j: int| from <= j < p.len() && d <= a[p[j] as int].depth() implies #[trigger] end_of(
                a,
                p[j],
            ) == end_of(b, p[j]) by {
                assert(p[j] == pending[j]);
            }
            assert forall|j: int| 0 <= j < from && j < p.len() implies #[trigger] a[p[j] as int].depth() < d by {
                assert(p[j] == pending[j]);
            }
            lemma_end_lines_agree(a, b, p, d, from);
        }
    }
}

/// Where the walked region at each position stands at the depth of its position, the
/// regions kept for depth `d` are the first `d`.
proof fn lemma_kept_take(nodes: Seq<Node>, pending: Seq<usize>, d: nat)
    requires
        d <= pending.len(),
        forall|j: int|
            0 <= j < pending.len() ==> #[trigger] pending[j] < nodes.len() && nodes[pending[j] as int].depth()
                == j,
    ensures
        kept(nodes, pending, d) == pending.take(d as int),
    decreases pending.len(),
{
    if pending.len() == d {
        if pending.len() > 0 {
            assert(pending[pending.len() - 1] == pending.last());
        }
        assert(pending.take(d as int) =~= pending);
    } else {
        assert(pending[pending.len() - 1] == pending.last());
        let p = pending.drop_last();
        assert forall|j: int| 0 <= j < p.len() implies #[trigger] p[j] < nodes.len() && nodes[p[j] as int].depth()
            == j by {
            assert(p[j] == pending[j]);
        }
        lemma_kept_take(nodes, p, d);
        assert(p.take(d as int) =~= pending.take(d as int));
    }
}

/// Regions that are all still open end with no line.
proof fn lemma_open_end_lines(nodes: Seq<Node>, pending: Seq<usize>, d: nat)
    requires
        forall|j: int|
            0 <= j < pending.len() ==> #[trigger] pending[j] < nodes.len()
                && nodes[pending[j] as int].is_open_region(),
    ensures
        end_lines(nodes, pending, d) == Seq::<Seq<char>>::empty(),
    decreases pending.len(),
{
    if pending.len() > 0 && nodes[pending.last() as int].depth() >= d {
        assert(pending[pending.len() - 1] == pending.last());
        let p = pending.drop_last();
        assert forall|j: int| 0 <= j < p.len() implies #[trigger] p[j] < nodes.len()
            && nodes[p[j] as int].is_open_region() by {
            assert(p[j] == pending[j]);
        }
        lemma_open_end_lines(nodes, p, d);
        assert(end_of(nodes, pending.last()) =~= Seq::<Seq<char>>::empty());
    }
}

/// What the walk over a well-formed tree keeps once it has passed nodes `0..i`: a region at
/// each depth up to that of the last node passed, and among them every open region passed.
pub open spec fn walk_state(c: Content, i: int, pending: Seq<usize>) -> bool {
    let nodes = c.nodes();
    let open = c.open_regions();
    &&& forall|j: int|
        0 <= j < pending.len() ==> #[trigger] pending[j] < i && nodes[pending[j] as int] is Region
            && nodes[pending[j] as int].depth() == j
    &&& i == 0 ==> pending.len() == 0
    &&& i > 0 ==> pending.len() == nodes[i - 1].depth() + if nodes[i - 1] is Region {
        1nat
    } else {
        0nat
    }
    &&& forall|k: int|
        0 <= k < open.len() && #[trigger] open[k] < i ==> k < pending.len() && pending[k] == open[k]
}

#[verifier::spinoff_prover]
#[verifier::rlimit(40)]
proof fn lemma_walk_step(c: Content, i: int, pending: Seq<usize>)
    requires
        c.wf(),
        c.nodes().len() <= usize::MAX,
        0 <= i < c.nodes().len(),
        walk_state(c, i, pending),
    ensures
        walk_state(c, i + 1, next_pending(c.nodes(), i, pending)),
{
    let nodes = c.nodes();
    let open = c.open_regions();
    let d = nodes[i].depth();
    assert(d <= pending.len()) by {
        if i > 0 {
            assert(nodes[i].depth() <= nodes[i - 1].depth() + if nodes[i - 1] is Region {
                1nat
            } else {
                0nat
            });
        }
    }
    assert forall|j: int| 0 <= j < pending.len() implies #[trigger] pending[j] < nodes.len()
        && nodes[pending[j] as int].depth() == j by {
    }
    lemma_kept_take(nodes, pending, d);
    let next = next_pending(nodes, i, pending);
    let rest = pending.take(d as int);
    assert(next == if nodes[i] is Region { rest.push(i as usize) } else { rest });
    assert forall|j: int| 0 <= j < next.len() implies #[trigger] next[j] < i + 1
        && nodes[next[j] as int] is Region && nodes[next[j] as int].depth() == j by {
        if j < d {
            assert(next[j] == pending[j]);
        } else {
            assert(next[j] == i);
        }
    }
    assert(next.len() == nodes[i].depth() + if nodes[i] is Region { 1nat } else { 0nat });
    assert forall|k: int| 0 <= k < open.len() && #[trigger] open[k] < i + 1 implies k < next.len()
        && next[k] == open[k] by {
        assert(open[k] < nodes.len() && nodes[open[k] as int].is_open_region()
            && nodes[open[k] as int].depth() == k);
        if open[k] == i {
            assert(nodes[i] is Region);
            assert(d == k);
        } else {
            assert(nodes[i].depth() > k && open[k] == open[k]);
            assert(pending[k] == open[k]);
        }
    }
}

proof fn lemma_walk_all(c: Content, i: int, pending: Seq<usize>)
    requires
        c.wf(),
        c.nodes().len() <= usize::MAX,
        0 <= i <= c.nodes().len(),
        walk_state(c, i, pending),
    ensures
        walk_state(c, c.nodes().len() as int, walk_pending(c.nodes(), i, pending)),
    decreases c.nodes().len() - i,
{
    if i < c.nodes().len() {
        lemma_walk_step(c, i, pending);
        lemma_walk_all(c, i + 1, next_pending(c.nodes(), i, pending));
    }
}

/// Walking a tree with one more node at its end: the walk over the shorter tree, then
/// the rest from where it stopped.
proof fn lemma_walk_prefix(nodes: Seq<Node>, x: Node, i: int, pending: Seq<usize>)
    requires
        0 <= i <= nodes.len(),
        forall|j: int| 0 <= j < pending.len() ==> #[trigger] pending[j] < i,
    ensures
        replay_from(nodes.push(x), i, pending) == walk_lines(nodes, i, pending) + replay_from(
            nodes.push(x),
            nodes.len() as int,
            walk_pending(nodes, i, pending),
        ),
        forall|j: int|
            0 <= j < walk_pending(nodes, i, pending).len() ==> #[trigger] walk_pending(
                nodes,
                i,
                pending,
            )[j] < nodes.len(),
    decreases nodes.len() - i,
{
    let m = nodes.push(x);
    if i < nodes.len() {
        assert(m[i] == nodes[i]);
        assert forall|j: int| 0 <= j < pending.len() implies #[trigger] pending[j] < m.len()
            && pending[j] < nodes.len() && m[pending[j] as int].depth()
            == nodes[pending[j] as int].depth() by {
            assert(m[pending[j] as int] == nodes[pending[j] as int]);
        }
        assert forall|j: int| 0 <= j < pending.len() && nodes[i].depth() <= m[pending[j] as int].depth() implies #[trigger] end_of(
            m,
            pending[j],
        ) == end_of(nodes, pending[j]) by {
            assert(m[pending[j] as int] == nodes[pending[j] as int]);
        }
        lemma_end_lines_agree(m, nodes, pending, nodes[i].depth(), 0);
        let next = next_pending(nodes, i, pending);
        lemma_kept_prefix(nodes, pending, nodes[i].depth());
        assert(next_pending(m, i, pending) == next);
        assert forall|j: int| 0 <= j < next.len() implies #[trigger] next[j] < i + 1 by {
            let r = kept(nodes, pending, nodes[i].depth());
            if j < r.len() {
                assert(r[j] == pending[j]);
            }
        }
        lemma_walk_prefix(nodes, x, i + 1, next);
        let a = end_lines(nodes, pending, nodes[i].depth()) + seq![own_line(nodes[i])];
        assert(a + (walk_lines(nodes, i + 1, next) + replay_from(m, nodes.len() as int, walk_pending(nodes, i + 1, next)))
            =~= (a + walk_lines(nodes, i + 1, next)) + replay_from(m, nodes.len() as int, walk_pending(nodes, i + 1, next)));
    } else {
        assert(walk_lines(nodes, i, pending) + replay_from(m, i, pending) =~= replay_from(m, i, pending));
    }
}

/// The regions kept are the first of those walked.
proof fn lemma_kept_prefix(nodes: Seq<Node>, pending: Seq<usize>, d: nat)
    ensures
        kept(nodes, pending, d).len() <= pending.len(),
        forall|j: int| 0 <= j < kept(nodes, pending, d).len() ==> #[trigger] kept(nodes, pending, d)[j] == pending[j],
    decreases pending.len(),
{
    if pending.len() > 0 && nodes[pending.last() as int].depth() >= d {
        lemma_kept_prefix(nodes, pending.drop_last(), d);
    }
}

/// The walk over a tree whose innermost open region was closed is the walk over the tree
/// as it was, until the end: that region is never ended before.
proof fn lemma_walk_closed(
    c: Content,
    m: Seq<Node>,
    end_title: String,
    end_line: String,
    i: int,
    pending: Seq<usize>,
)
    requires
        c.wf(),
        c.nodes().len() <= usize::MAX,
        c.open_regions().len() > 0,
        m == c.nodes().update(
            c.open_regions().last() as int,
            closed_node(c.nodes()[c.open_regions().last() as int], end_title, end_line),
        ),
        0 <= i <= c.nodes().len(),
        walk_state(c, i, pending),
    ensures
        walk_lines(m, i, pending) == walk_lines(c.nodes(), i, pending),
        walk_pending(m, i, pending) == walk_pending(c.nodes(), i, pending),
    decreases c.nodes().len() - i,
{
    let nodes = c.nodes();
    let open = c.open_regions();
    let kr = open.len() - 1;
    let r = open[kr];
    assert(open.last() == r);
    assert(r < nodes.len() && nodes[r as int].is_open_region() && nodes[r as int].depth() == kr);
    if i < nodes.len() {
        let d = nodes[i].depth();
        assert(m[i].depth() == d && (m[i] is Region) == (nodes[i] is Region) && own_line(m[i]) == own_line(nodes[i]));
        let from: nat = if r < i { (kr + 1) as nat } else { 0 };
        if r < i {
            assert(nodes[i].depth() > kr && open[kr] == open[kr]);
            assert(pending[kr] == r);
        }
        assert forall|j: int| 0 <= j < pending.len() implies #[trigger] pending[j] < m.len()
            && pending[j] < nodes.len() && m[pending[j] as int].depth()
            == nodes[pending[j] as int].depth() by {
        }
        assert forall|j: int| from <= j < pending.len() && d <= m[pending[j] as int].depth() implies #[trigger] end_of(
            m,
            pending[j],
        ) == end_of(nodes, pending[j]) by {
            assert(pending[j] != r);
            assert(m[pending[j] as int] == nodes[pending[j] as int]);
        }
        assert forall|j: int| 0 <= j < from && j < pending.len() implies #[trigger] m[pending[j] as int].depth() < d by {
        }
        lemma_end_lines_agree(m, nodes, pending, d, from);
        assert(next_pending(m, i, pending) == next_pending(nodes, i, pending));
        lemma_walk_step(c, i, pending);
        lemma_walk_closed(c, m, end_title, end_line, i + 1, next_pending(nodes, i, pending));
    }
}

/// Where the walk over a well-formed tree stands at its end: the open regions come first
/// among the regions still walked, each at its depth.
proof fn lemma_walk_end(c: Content)
    requires
        c.wf(),
        c.nodes().len() <= usize::MAX,
    ensures
        ({
            let nodes = c.nodes();
            let open = c.open_regions();
            let pf = walk_pending(nodes, 0, seq![]);
            &&& replay(nodes) == walk_lines(nodes, 0, seq![]) + end_lines(nodes, pf, 0)
            &&& forall|j: int|
                0 <= j < pf.len() ==> #[trigger] pf[j] < nodes.len() && nodes[pf[j] as int].depth() == j
            &&& pf.len() >= open.len()
            &&& forall|k: int| 0 <= k < open.len() ==> #[trigger] pf[k] == open[k]
            &&& forall|k: int|
                0 <= k < open.len() ==> #[trigger] open[k] < nodes.len() && nodes[open[k] as int].is_open_region()
                    && nodes[open[k] as int].depth() == k
        }),
{
    let nodes = c.nodes();
    let open = c.open_regions();
    let n = nodes.len() as int;
    lemma_walk_all(c, 0, seq![]);
    let pf = walk_pending(nodes, 0, seq![]);
    lemma_replay_split(nodes, 0, seq![]);
    assert(pf.len() >= open.len()) by {
        if n > 0 {
            c.lemma_last_node_depth();
            assert(nodes.last() == nodes[n - 1]);
        } else if open.len() > 0 {
            assert(open[0] < nodes.len());
        }
    }
    assert forall|k: int| 0 <= k < open.len() implies #[trigger] pf[k] == open[k] by {
        assert(open[k] < nodes.len());
    }
}

#[verifier::spinoff_prover]
proof fn lemma_replay_close(c: Content, line: String, class: LineClass)
    requires
        c.wf(),
        c.nodes().len() < usize::MAX,
        class is End,
        c.open_regions().len() > 0,
    ensures
        replay(pushed_nodes(c.nodes(), c.open_regions(), line, class)) == replay(c.nodes()).push(line@),
{
    let nodes = c.nodes();
    let open = c.open_regions();
    let m = pushed_nodes(nodes, open, line, class);
    lemma_walk_end(c);
    let pf = walk_pending(nodes, 0, seq![]);
    let w = walk_lines(nodes, 0, seq![]);
    let kr = open.len() - 1;
    let r = open[kr];
    assert(open.last() == r);
    let t = class->End_title;
    assert(m == nodes.update(r as int, closed_node(nodes[r as int], t, line)));
    lemma_walk_closed(c, m, t, line, 0, seq![]);
    lemma_replay_split(m, 0, seq![]);
    lemma_end_lines_split(m, pf, (kr + 1) as nat);
    lemma_end_lines_split(nodes, pf, (kr + 1) as nat);
    assert forall|j: int| 0 <= j < pf.len() implies #[trigger] pf[j] < m.len() && pf[j] < nodes.len()
        && m[pf[j] as int].depth() == nodes[pf[j] as int].depth() by {
    }
    assert forall|j: int| kr + 1 <= j < pf.len() && (kr + 1) as nat <= m[pf[j] as int].depth() implies #[trigger] end_of(
        m,
        pf[j],
    ) == end_of(nodes, pf[j]) by {
        assert(pf[j] != r);
        assert(m[pf[j] as int] == nodes[pf[j] as int]);
    }
    assert forall|j: int| 0 <= j < kr + 1 && j < pf.len() implies #[trigger] m[pf[j] as int].depth() < (kr + 1) as nat by {
    }
    lemma_end_lines_agree(m, nodes, pf, (kr + 1) as nat, (kr + 1) as nat);
    lemma_kept_take(nodes, pf, (kr + 1) as nat);
    let front = pf.take(kr + 1);
    let inner = pf.take(kr);
    assert(front.drop_last() =~= inner);
    assert(front.last() == r);
    assert(end_of(m, r) =~= seq![line@]);
    assert forall|j: int| 0 <= j < inner.len() implies #[trigger] inner[j] < m.len()
        && m[inner[j] as int].is_open_region() by {
        assert(inner[j] == open[j]);
        assert(inner[j] != r);
        assert(m[inner[j] as int] == nodes[inner[j] as int]);
    }
    lemma_open_end_lines(m, inner, 0);
    assert(end_lines(m, front, 0) =~= seq![line@]);
    assert forall|j: int| 0 <= j < front.len() implies #[trigger] front[j] < nodes.len()
        && nodes[front[j] as int].is_open_region() by {
        assert(front[j] == open[j]);
    }
    lemma_open_end_lines(nodes, front, 0);
    let e = end_lines(nodes, pf, (kr + 1) as nat);
    assert(w + (e + seq![line@]) =~= (w + (e + Seq::<Seq<char>>::empty())).push(line@));
}

proof fn lemma_replay_append(c: Content, line: String, class: LineClass)
    requires
        c.wf(),
        c.nodes().len() < usize::MAX,
        !(class is End),
    ensures
        replay(pushed_nodes(c.nodes(), c.open_regions(), line, class)) == replay(c.nodes()).push(line@),
{
    lemma_walk_end(c);
    assert(c.open_regions().len() <= c.nodes().len());
    lemma_replay_append_walked(c.nodes(), c.open_regions(), line, class);
}

#[verifier::spinoff_prover]
proof fn lemma_replay_append_walked(nodes: Seq<Node>, open: Seq<usize>, line: String, class: LineClass)
    requires
        nodes.len() < usize::MAX,
        open.len() <= nodes.len(),
        !(class is End),
        ({
            let pf = walk_pending(nodes, 0, seq![]);
            &&& replay(nodes) == walk_lines(nodes, 0, seq![]) + end_lines(nodes, pf, 0)
            &&& forall|j: int|
                0 <= j < pf.len() ==> #[trigger] pf[j] < nodes.len() && nodes[pf[j] as int].depth() == j
            &&& pf.len() >= open.len()
            &&& forall|k: int| 0 <= k < open.len() ==> #[trigger] pf[k] == open[k]
            &&& forall|k: int|
                0 <= k < open.len() ==> #[trigger] open[k] < nodes.len() && nodes[open[k] as int].is_open_region()
                    && nodes[open[k] as int].depth() == k
        }),
    ensures
        replay(pushed_nodes(nodes, open, line, class)) == replay(nodes).push(line@),
{
    let n = nodes.len() as int;
    let m = pushed_nodes(nodes, open, line, class);
    let pf = walk_pending(nodes, 0, seq![]);
    let w = walk_lines(nodes, 0, seq![]);
    let dx = open.len() as nat;
    let x = m.last();
    assert(m == nodes.push(x));
    assert(x.depth() == dx);
    assert(own_line(x) == line@);
    lemma_walk_prefix(nodes, x, 0, seq![]);
    assert forall|j: int| 0 <= j < pf.len() implies #[trigger] pf[j] < m.len() && pf[j] < nodes.len()
        && m[pf[j] as int].depth() == nodes[pf[j] as int].depth() by {
        assert(m[pf[j] as int] == nodes[pf[j] as int]);
    }
    assert forall|j: int| 0 <= j < pf.len() && dx <= m[pf[j] as int].depth() implies #[trigger] end_of(
        m,
        pf[j],
    ) == end_of(nodes, pf[j]) by {
        assert(m[pf[j] as int] == nodes[pf[j] as int]);
    }
    lemma_end_lines_agree(m, nodes, pf, dx, 0);
    lemma_kept_take(nodes, pf, dx);
    let front = pf.take(dx as int);
    let next = next_pending(m, n, pf);
    assert(next == if x is Region { front.push(n as usize) } else { front });
    assert forall|j: int| 0 <= j < next.len() implies #[trigger] next[j] < m.len()
        && m[next[j] as int].is_open_region() by {
        if j < front.len() {
            assert(next[j] == open[j]);
            assert(m[open[j] as int] == nodes[open[j] as int]);
        } else {
            assert(next[j] == n);
        }
    }
    lemma_open_end_lines(m, next, 0);
    assert(replay_from(m, n + 1, next) =~= Seq::<Seq<char>>::empty());
    assert forall|j: int| 0 <= j < front.len() implies #[trigger] front[j] < nodes.len()
        && nodes[front[j] as int].is_open_region() by {
        assert(front[j] == open[j]);
    }
    lemma_open_end_lines(nodes, front, 0);
    lemma_end_lines_split(nodes, pf, dx);
    let e = end_lines(nodes, pf, dx);
    assert(w + (e + seq![line@] + Seq::<Seq<char>>::empty()) =~= (w + (e + Seq::<Seq<char>>::empty())).push(line@));
}

/// Feeding a line to a well-formed tree adds exactly that line at the end of its replay;
/// only an end line with no open region, which is dropped, leaves the replay as it was.
pub proof fn lemma_replay_push(c: Content, line: String, class: LineClass)
    requires
        c.wf(),
        c.nodes().len() < usize::MAX,
    ensures
        replay(pushed_nodes(c.nodes(), c.open_regions(), line, class)) == if class is End
            && c.open_regions().len() == 0 {
            replay(c.nodes())
        } else {
            replay(c.nodes()).push(line@)
        },
{
    if class is End {
        if c.open_regions().len() > 0 {
            lemma_replay_close(c, line, class);
        }
    } else {
        lemma_replay_append(c, line, class);
    }
}

} // verus!
