use vstd::prelude::*;

verus! {

/// Whether a region still accepts content, and how it was closed.
pub enum RegionState {
    Open,
    Closed { end_title: String, end_line: String },
}

/// A region delimited by a start line and, once closed, an end line.
pub struct Encapsulation {
    pub pair_id: usize,
    pub start_title: String,
    pub start_line: String,
    pub state: RegionState,
}

impl Encapsulation {
    pub fn is_ended(&self) -> (r: bool)
        ensures
            r == (self.state is Closed),
    {
        match self.state {
            RegionState::Open => false,
            RegionState::Closed { .. } => true,
        }
    }
}

/// One node of a content tree, with its nesting depth. The tree is kept flat, in
/// pre-order: the content of a region is the nodes that follow it and are deeper, up to
/// the next node that is not.
pub enum Node {
    Line { depth: usize, text: String },
    Region { depth: usize, region: Encapsulation },
}

impl Node {
    pub open spec fn depth(self) -> nat {
        match self {
            Node::Line { depth, .. } => depth as nat,
            Node::Region { depth, .. } => depth as nat,
        }
    }

    pub open spec fn is_open_region(self) -> bool {
        self is Region && self->Region_region.state is Open
    }

    /// The nesting depth of the node.
    pub fn depth_of(&self) -> (r: usize)
        ensures
            r == self.depth(),
    {
        match self {
            Node::Line { depth, .. } => *depth,
            Node::Region { depth, .. } => *depth,
        }
    }
}

/// What the matchers made of one incoming line.
pub enum LineClass {
    Plain,
    Start { pair_id: usize, title: String },
    End { title: String },
}

/// The content tree of one source: its nodes in pre-order, and the indices of the
/// regions that are still open, outermost first.
pub struct Content {
    nodes: Vec<Node>,
    open: Vec<usize>,
}

/// The region node `n` closed by an end line with this title.
pub open spec fn closed_node(n: Node, end_title: String, end_line: String) -> Node {
    match n {
        Node::Region { depth, region } => Node::Region {
            depth,
            region: Encapsulation {
                state: RegionState::Closed { end_title, end_line },
                ..region
            },
        },
        Node::Line { .. } => n,
    }
}

/// The nodes after one line of the given class was pushed onto `nodes`, whose open
/// regions are `open`.
pub open spec fn pushed_nodes(nodes: Seq<Node>, open: Seq<usize>, line: String, class: LineClass) -> Seq<Node> {
    match class {
        LineClass::Plain => nodes.push(Node::Line { depth: open.len() as usize, text: line }),
        LineClass::Start { pair_id, title } => nodes.push(
            Node::Region {
                depth: open.len() as usize,
                region: Encapsulation {
                    pair_id,
                    start_title: title,
                    start_line: line,
                    state: RegionState::Open,
                },
            },
        ),
        LineClass::End { title } => if open.len() == 0 {
            nodes
        } else {
            nodes.update(open.last() as int, closed_node(nodes[open.last() as int], title, line))
        },
    }
}

/// The open regions after one line of the given class was pushed.
pub open spec fn pushed_open(nodes: Seq<Node>, open: Seq<usize>, class: LineClass) -> Seq<usize> {
    match class {
        LineClass::Plain => open,
        LineClass::Start { .. } => open.push(nodes.len() as usize),
        LineClass::End { .. } => if open.len() == 0 {
            open
        } else {
            open.drop_last()
        },
    }
}

impl Content {
    pub closed spec fn nodes(self) -> Seq<Node> {
        self.nodes@
    }

    pub closed spec fn open_regions(self) -> Seq<usize> {
        self.open@
    }

    /// The open regions are no more than the nodes and form a chain of trailing regions,
    /// one per depth, each of which holds every node after it; a node is at most one level
    /// deeper than the node before it, and only right after a region.
    pub open spec fn wf(self) -> bool {
        let nodes = self.nodes();
        let open = self.open_regions();
        &&& open.len() <= nodes.len()
        &&& forall|k: int|
            0 <= k < open.len() ==> {
                &&& #[trigger] open[k] < nodes.len()
                &&& nodes[open[k] as int].is_open_region()
                &&& nodes[open[k] as int].depth() == k
            }
        &&& forall|k: int, j: int|
            0 <= k < open.len() && open[k] < j < nodes.len() ==> #[trigger] nodes[j].depth() > k
                && #[trigger] open[k] == open[k]
        &&& forall|i: int|
            0 <= i < nodes.len() && #[trigger] nodes[i].is_open_region() ==> nodes[i].depth()
                < open.len() && open[nodes[i].depth() as int] == i
        &&& nodes.len() > 0 ==> nodes[0].depth() == 0
        &&& forall|i: int|
            0 < i < nodes.len() ==> #[trigger] nodes[i].depth() <= nodes[i - 1].depth() + if nodes[i
                - 1] is Region {
                1nat
            } else {
                0nat
            }
    }

    pub fn new() -> (r: Content)
        ensures
            r.wf(),
            r.nodes().len() == 0,
            r.open_regions().len() == 0,
    {
        Content { nodes: Vec::new(), open: Vec::new() }
    }

    pub fn nodes_ref(&self) -> (r: &Vec<Node>)
        ensures
            r@ == self.nodes(),
    {
        &self.nodes
    }

    pub fn open_depth(&self) -> (r: usize)
        ensures
            r == self.open_regions().len(),
    {
        self.open.len()
    }

    /// The last node reaches down to the innermost open region: it is deeper, or is that
    /// region itself.
    pub proof fn lemma_last_node_depth(self)
        requires
            self.wf(),
            self.nodes().len() > 0,
        ensures
            ({
                let last = self.nodes().last();
                last.depth() + (if last is Region { 1nat } else { 0nat }) >= self.open_regions().len()
            }),
    {
        let nodes = self.nodes();
        let open = self.open_regions();
        if open.len() > 0 {
            let k = open.len() - 1;
            assert(open[k] < nodes.len());
            if open[k] < nodes.len() - 1 {
                assert(nodes[nodes.len() - 1].depth() > k && open[k] == open[k]);
            }
        }
    }

    /// Appends a line to the innermost open region, or at the top level when none is open.
    pub fn push_regular(&mut self, text: String)
        requires
            old(self).wf(),
        ensures
            final(self).wf(),
            final(self).nodes() == old(self).nodes().push(
                Node::Line { depth: old(self).open_regions().len() as usize, text },
            ),
            final(self).open_regions() == old(self).open_regions(),
    {
        proof {
            if self.nodes@.len() > 0 {
                self.lemma_last_node_depth();
            }
        }
        let depth = self.open.len();
        self.nodes.push(Node::Line { depth, text });
        proof {
            let nodes = self.nodes@;
            let open = self.open@;
            if old(self).nodes().len() == 0 {
                if old(self).open_regions().len() > 0 {
                    assert(old(self).open_regions()[0] < old(self).nodes().len());
                }
            } else {
                assert(old(self).nodes()[0] == nodes[0]);
            }
            assert forall|k: int|
                0 <= k < open.len() implies {
                &&& #[trigger] open[k] < nodes.len()
                &&& nodes[open[k] as int].is_open_region()
                &&& nodes[open[k] as int].depth() == k
            } by {
                assert(old(self).nodes()[open[k] as int] == nodes[open[k] as int]);
            }
            assert forall|i: int|
                0 <= i < nodes.len() && #[trigger] nodes[i].is_open_region() implies nodes[i].depth()
                < open.len() && open[nodes[i].depth() as int] == i by {
                assert(old(self).nodes()[i] == nodes[i]);
            }
            assert forall|k: int, j: int|
                0 <= k < open.len() && open[k] < j < nodes.len() implies #[trigger] nodes[j].depth()
                > k && #[trigger] open[k] == open[k] by {
                if j < nodes.len() - 1 {
                    assert(old(self).nodes()[j] == nodes[j]);
                }
            }
            assert forall|i: int|
                0 < i < nodes.len() implies #[trigger] nodes[i].depth() <= nodes[i - 1].depth()
                + if nodes[i - 1] is Region {
                1nat
            } else {
                0nat
            } by {
                if i < nodes.len() - 1 {
                    assert(old(self).nodes()[i] == nodes[i]);
                    assert(old(self).nodes()[i - 1] == nodes[i - 1]);
                }
            }
        }
    }

    /// Opens a new region inside the innermost open region, or at the top level.
    pub fn push_start(&mut self, pair_id: usize, start_title: String, start_line: String)
        requires
            old(self).wf(),
        ensures
            final(self).wf(),
            final(self).nodes() == old(self).nodes().push(
                Node::Region {
                    depth: old(self).open_regions().len() as usize,
                    region: Encapsulation { pair_id, start_title, start_line, state: RegionState::Open },
                },
            ),
            final(self).open_regions() == old(self).open_regions().push(
                old(self).nodes().len() as usize,
            ),
    {
        proof {
            if self.nodes@.len() > 0 {
                self.lemma_last_node_depth();
            }
        }
        let depth = self.open.len();
        let idx = self.nodes.len();
        self.nodes.push(
            Node::Region {
                depth,
                region: Encapsulation { pair_id, start_title, start_line, state: RegionState::Open },
            },
        );
        self.open.push(idx);
        proof {
            let nodes = self.nodes@;
            let open = self.open@;
            if old(self).nodes().len() == 0 {
                if old(self).open_regions().len() > 0 {
                    assert(old(self).open_regions()[0] < old(self).nodes().len());
                }
            } else {
                assert(old(self).nodes()[0] == nodes[0]);
            }
            assert forall|k: int|
                0 <= k < open.len() implies {
                &&& #[trigger] open[k] < nodes.len()
                &&& nodes[open[k] as int].is_open_region()
                &&& nodes[open[k] as int].depth() == k
            } by {
                if k < open.len() - 1 {
                    assert(old(self).open_regions()[k] == open[k]);
                    assert(old(self).nodes()[open[k] as int] == nodes[open[k] as int]);
                }
            }
            assert forall|k: int, j: int|
                0 <= k < open.len() && open[k] < j < nodes.len() implies #[trigger] nodes[j].depth()
                > k && #[trigger] open[k] == open[k] by {
                if j < nodes.len() - 1 {
                    assert(old(self).nodes()[j] == nodes[j]);
                    assert(old(self).open_regions()[k] == open[k]);
                }
            }
            assert forall|i: int|
                0 <= i < nodes.len() && #[trigger] nodes[i].is_open_region() implies nodes[i].depth()
                < open.len() && open[nodes[i].depth() as int] == i by {
                if i < nodes.len() - 1 {
                    assert(old(self).nodes()[i] == nodes[i]);
                }
            }
            assert forall|i: int|
                0 < i < nodes.len() implies #[trigger] nodes[i].depth() <= nodes[i - 1].depth()
                + if nodes[i - 1] is Region {
                1nat
            } else {
                0nat
            } by {
                if i < nodes.len() - 1 {
                    assert(old(self).nodes()[i] == nodes[i]);
                    assert(old(self).nodes()[i - 1] == nodes[i - 1]);
                }
            }
        }
    }

    /// Closes the innermost open region with this end line; without an open region the
    /// line is dropped and nothing changes.
    pub fn push_end(&mut self, end_title: String, end_line: String)
        requires
            old(self).wf(),
        ensures
            final(self).wf(),
            old(self).open_regions().len() == 0 ==> final(self).nodes() == old(self).nodes()
                && final(self).open_regions() == old(self).open_regions(),
            old(self).open_regions().len() > 0 ==> {
                let idx = old(self).open_regions().last() as int;
                &&& final(self).nodes() == old(self).nodes().update(
                    idx,
                    closed_node(old(self).nodes()[idx], end_title, end_line),
                )
                &&& final(self).open_regions() == old(self).open_regions().drop_last()
            },
    {
        if self.open.len() == 0 {
            return;
        }
        let idx = self.open.pop().unwrap();
        proof {
            assert(old(self).open_regions()[old(self).open_regions().len() - 1] == idx);
        }
        let closed = match &self.nodes[idx] {
            Node::Region { depth, region } => Node::Region {
                depth: *depth,
                region: Encapsulation {
                    pair_id: region.pair_id,
                    start_title: region.start_title.clone(),
                    start_line: region.start_line.clone(),
                    state: RegionState::Closed { end_title, end_line },
                },
            },
            Node::Line { .. } => {
                proof {
                    assert(false);
                }
                return;
            },
        };
        self.nodes.set(idx, closed);
        proof {
            let nodes = self.nodes@;
            let open = self.open@;
            let onodes = old(self).nodes();
            let oopen = old(self).open_regions();
            assert(nodes == onodes.update(idx as int, closed_node(onodes[idx as int], end_title, end_line)));
            assert forall|k: int|
                0 <= k < open.len() implies {
                &&& #[trigger] open[k] < nodes.len()
                &&& nodes[open[k] as int].is_open_region()
                &&& nodes[open[k] as int].depth() == k
            } by {
                assert(oopen[k] == open[k]);
                assert(oopen[k] < oopen[oopen.len() - 1]) by {
                    assert(onodes[oopen[k] as int].depth() == k);
                    assert(onodes[idx as int].depth() == oopen.len() - 1);
                    if oopen[k] > idx {
                        assert(onodes[oopen[k] as int].depth() > oopen.len() - 1 && oopen[oopen.len() - 1] == oopen[oopen.len() - 1]);
                    }
                }
            }
            assert forall|k: int, j: int|
                0 <= k < open.len() && open[k] < j < nodes.len() implies #[trigger] nodes[j].depth()
                > k && #[trigger] open[k] == open[k] by {
                assert(oopen[k] == open[k]);
                assert(onodes[j].depth() > k && oopen[k] == oopen[k]);
            }
            assert forall|i: int|
                0 <= i < nodes.len() && #[trigger] nodes[i].is_open_region() implies nodes[i].depth()
                < open.len() && open[nodes[i].depth() as int] == i by {
                assert(i != idx);
                assert(onodes[i] == nodes[i]);
                assert(onodes[i].is_open_region());
                assert(oopen[onodes[i].depth() as int] == i);
                assert(onodes[i].depth() != oopen.len() - 1);
            }
            if nodes.len() > 0 {
                assert(onodes[0].depth() == nodes[0].depth());
            }
            assert forall|i: int|
                0 < i < nodes.len() implies #[trigger] nodes[i].depth() <= nodes[i - 1].depth()
                + if nodes[i - 1] is Region {
                1nat
            } else {
                0nat
            } by {
                assert(onodes[i].depth() <= onodes[i - 1].depth() + if onodes[i - 1] is Region {
                    1nat
                } else {
                    0nat
                });
            }
        }
    }

    /// Inserts one line into the tree as its class says: a start line opens a region, an
    /// end line closes the innermost open one, any other line is appended as text.
    pub fn push_classified(&mut self, line: String, class: LineClass)
        requires
            old(self).wf(),
        ensures
            final(self).wf(),
            final(self).nodes() == pushed_nodes(
                old(self).nodes(),
                old(self).open_regions(),
                line,
                class,
            ),
            final(self).open_regions() == pushed_open(
                old(self).nodes(),
                old(self).open_regions(),
                class,
            ),
    {
        match class {
            LineClass::Plain => self.push_regular(line),
            LineClass::Start { pair_id, title } => self.push_start(pair_id, title, line),
            LineClass::End { title } => self.push_end(title, line),
        }
    }
}

/// An end line closes the innermost open region: after regions `A` and then `B` were
/// opened, one end line closes `B` and leaves `A` open, and a second one closes `A`.
pub proof fn lemma_nearest_open_close(
    nodes: Seq<Node>,
    open: Seq<usize>,
    start_a: LineClass,
    line_a: String,
    start_b: LineClass,
    line_b: String,
    end_1: LineClass,
    line_1: String,
    end_2: LineClass,
    line_2: String,
)
    requires
        nodes.len() + 2 <= usize::MAX,
        start_a is Start,
        start_b is Start,
        end_1 is End,
        end_2 is End,
    ensures
        ({
            let a = nodes.len() as int;
            let n1 = pushed_nodes(nodes, open, line_a, start_a);
            let o1 = pushed_open(nodes, open, start_a);
            let n2 = pushed_nodes(n1, o1, line_b, start_b);
            let o2 = pushed_open(n1, o1, start_b);
            let n3 = pushed_nodes(n2, o2, line_1, end_1);
            let o3 = pushed_open(n2, o2, end_1);
            let n4 = pushed_nodes(n3, o3, line_2, end_2);
            let o4 = pushed_open(n3, o3, end_2);
            &&& n3.len() == a + 2
            &&& n3[a].is_open_region()
            &&& n3[a + 1] == closed_node(n2[a + 1], end_1->End_title, line_1)
            &&& n3[a + 1] is Region && n3[a + 1]->Region_region.state is Closed
            &&& o3 == open.push(a as usize)
            &&& n4[a] == closed_node(n3[a], end_2->End_title, line_2)
            &&& n4[a] is Region && n4[a]->Region_region.state is Closed
            &&& n4[a + 1] == n3[a + 1]
            &&& o4 == open
        }),
{
    let a = nodes.len() as int;
    let o1 = pushed_open(nodes, open, start_a);
    let o2 = pushed_open(pushed_nodes(nodes, open, line_a, start_a), o1, start_b);
    assert(o2 == open.push(a as usize).push((a + 1) as usize));
    assert(o2.drop_last() =~= open.push(a as usize));
    assert(open.push(a as usize).drop_last() =~= open);
}

} // verus!
