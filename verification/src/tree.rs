//! The per-block forest of call-frame trees. Each transaction owns an arena
//! of nodes laid out in pre-order, so that the subtree of a node is the
//! contiguous range of arena positions that starts at the node.

use vstd::prelude::*;
use crate::primitives::{Address, B256};
use crate::actions::{Actions, ActionView, actions_view, clone_actions, same_actions};

verus! {

/// What a transaction paid for its execution.
#[derive(Clone, Copy, Debug, PartialEq, Eq, Structural)]
pub struct GasDetails {
    pub coinbase_transfer: Option<u128>,
    pub priority_fee: u128,
    pub gas_used: u128,
    pub effective_gas_price: u128,
}

/// A call frame with the action that was decoded from it, as the tree
/// builder receives it. `subtraces` lists the trace indices of the calls
/// that the frame made, in call order.
#[derive(Debug)]
pub struct ClassifiedFrame {
    pub trace_index: u64,
    pub address: Address,
    pub target: Address,
    pub data: Actions,
    pub subtraces: Vec<u64>,
}

/// One call frame of a transaction tree.
#[derive(Debug)]
pub struct Node {
    /// The pre-order position of the frame, which is also its place in the
    /// arena.
    pub trace_index: u64,
    /// The account that made the call.
    pub address: Address,
    /// The contract that was called.
    pub target: Address,
    /// The action decoded from the frame itself.
    pub data: Actions,
    /// The recognized actions of the whole subtree, in trace order.
    pub subactions: Vec<Actions>,
    /// The arena positions of the calls that the frame made, in call order.
    pub children: Vec<usize>,
    /// One past the last arena position of the subtree.
    pub subtree_end: usize,
}

/// What the tree builder reads of a frame to lay out the tree: the trace
/// index of the frame, the trace index that its action carries, and the
/// trace indices of the calls that it made.
pub struct FrameShape {
    pub trace_index: u64,
    pub action_index: u64,
    pub subtraces: Seq<u64>,
}

impl ClassifiedFrame {
    /// The shape of the frame.
    pub open spec fn shape(&self) -> FrameShape {
        FrameShape {
            trace_index: self.trace_index,
            action_index: self.data@.trace_index(),
            subtraces: self.subtraces@,
        }
    }
}

/// The shapes of a sequence of frames.
pub open spec fn shapes(frames: Seq<ClassifiedFrame>) -> Seq<FrameShape> {
    frames.map_values(|f: ClassifiedFrame| f.shape())
}

/// The arena position one past the subtree of frame `i`, read off the
/// frames' child lists: a leaf ends right after itself, any other frame
/// where its last child ends.
pub open spec fn span_end(frames: Seq<FrameShape>, i: int) -> int
    decreases frames.len() - i,
{
    if 0 <= i < frames.len() && frames[i].subtraces.len() > 0 {
        let c = frames[i].subtraces.last() as int;
        if i < c < frames.len() {
            span_end(frames, c)
        } else {
            i + 1
        }
    } else {
        i + 1
    }
}

/// Where child `j` of frame `i` has to start in a pre-order layout: right
/// after its parent if it is the first child, and otherwise where the
/// subtree of the child before it stops.
pub open spec fn link(frames: Seq<FrameShape>, i: int, j: int) -> int {
    if j == 0 {
        i + 1
    } else {
        span_end(frames, frames[i].subtraces[j - 1] as int)
    }
}

/// Whether child `j` of frame `i` is a later frame and starts where it has
/// to.
pub open spec fn child_ok(frames: Seq<FrameShape>, i: int, j: int) -> bool {
    let c = frames[i].subtraces[j] as int;
    i < c < frames.len() && c == link(frames, i, j)
}

/// Whether the child list of frame `i` names the frames that a pre-order
/// layout puts there.
pub open spec fn chained(frames: Seq<FrameShape>, i: int) -> bool {
    forall|j: int| 0 <= j < frames[i].subtraces.len() ==> #[trigger] child_ok(frames, i, j)
}

/// Whether frame `i` carries its position, in itself and in its action, and
/// has a chained child list.
pub open spec fn frame_ok(frames: Seq<FrameShape>, i: int) -> bool {
    &&& frames[i].trace_index == i
    &&& frames[i].action_index == i
    &&& chained(frames, i)
}

/// Whether a sequence of frames is one transaction tree in pre-order: there
/// is a root, every frame is in order, and the subtree of the root is the
/// whole sequence.
pub open spec fn forms_tree(frames: Seq<FrameShape>) -> bool {
    &&& frames.len() >= 1
    &&& forall|i: int| 0 <= i < frames.len() ==> #[trigger] frame_ok(frames, i)
    &&& span_end(frames, 0) == frames.len()
}

/// The recognized actions of the arena positions `from..to`, in order.
pub open spec fn classified(data: Seq<ActionView>, from: int, to: int) -> Seq<ActionView>
    decreases to - from,
{
    if from >= to || to > data.len() || from < 0 {
        Seq::empty()
    } else if data[to - 1].is_classified() {
        classified(data, from, to - 1).push(data[to - 1])
    } else {
        classified(data, from, to - 1)
    }
}

/// The recognized actions of `a..c` are those of `a..b` followed by those of
/// `b..c`.
pub proof fn lemma_classified_split(data: Seq<ActionView>, a: int, b: int, c: int)
    requires
        0 <= a <= b <= c <= data.len(),
    ensures
        classified(data, a, c) == classified(data, a, b) + classified(data, b, c),
    decreases c - b,
{
    if b == c {
        assert(classified(data, b, c) =~= Seq::<ActionView>::empty());
        assert(classified(data, a, b) + Seq::<ActionView>::empty() =~= classified(data, a, b));
    } else {
        lemma_classified_split(data, a, b, c - 1);
        assert(classified(data, a, c) =~= classified(data, a, b) + classified(data, b, c));
    }
}

/// The actions of the nodes themselves, by arena position.
pub open spec fn node_actions(nodes: Seq<Node>) -> Seq<ActionView> {
    nodes.map_values(|n: Node| n.data@)
}

/// Where the subtree of node `i` ends.
pub open spec fn end_of(nodes: Seq<Node>, i: int) -> int {
    nodes[i].subtree_end as int
}

/// Whether child `j` of node `i` is a later node, and the child after it
/// starts where its subtree stops.
pub open spec fn kid_ok(nodes: Seq<Node>, i: int, j: int) -> bool {
    let kids = nodes[i].children@;
    &&& i < kids[j] < nodes.len()
    &&& j + 1 < kids.len() ==> kids[j + 1] == end_of(nodes, kids[j] as int)
}

/// Whether the child list of node `i` splits the rest of its subtree into
/// the consecutive subtrees of the children.
pub open spec fn children_wf(nodes: Seq<Node>, i: int) -> bool {
    let kids = nodes[i].children@;
    &&& kids.len() == 0 ==> end_of(nodes, i) == i + 1
    &&& kids.len() > 0 ==> kids[0] == i + 1 && end_of(nodes, kids.last() as int) == end_of(
        nodes,
        i,
    )
    &&& forall|j: int| 0 <= j < kids.len() ==> #[trigger] kid_ok(nodes, i, j)
}

/// Whether node `i` sits at its trace index, spans a range inside the arena,
/// has a well-formed child list, and holds the recognized actions of its
/// subtree.
pub open spec fn node_wf(nodes: Seq<Node>, i: int) -> bool {
    &&& nodes[i].trace_index == i
    &&& nodes[i].data@.trace_index() == i
    &&& i < end_of(nodes, i) <= nodes.len()
    &&& children_wf(nodes, i)
    &&& actions_view(nodes[i].subactions@) == classified(node_actions(nodes), i, end_of(nodes, i))
}

/// Whether the subtree of node `a` lies inside the subtree of node `i`
/// whenever `a` itself does.
pub open spec fn nests(nodes: Seq<Node>, i: int, a: int) -> bool {
    i < a < end_of(nodes, i) ==> end_of(nodes, a) <= end_of(nodes, i)
}

/// Whether an arena of nodes is a transaction tree in pre-order.
pub open spec fn arena_wf(nodes: Seq<Node>) -> bool {
    &&& nodes.len() >= 1
    &&& end_of(nodes, 0) == nodes.len()
    &&& forall|i: int| 0 <= i < nodes.len() ==> #[trigger] node_wf(nodes, i)
    &&& forall|i: int, a: int| 0 <= i < a < nodes.len() ==> #[trigger] nests(nodes, i, a)
}

/// The actions of the frames themselves, by position.
pub open spec fn frame_actions(frames: Seq<ClassifiedFrame>) -> Seq<ActionView> {
    frames.map_values(|f: ClassifiedFrame| f.data@)
}

/// Whether node `i` of an arena was made from frame `i`.
pub open spec fn mirrors(nodes: Seq<Node>, frames: Seq<ClassifiedFrame>, i: int) -> bool {
    &&& nodes[i].trace_index == frames[i].trace_index
    &&& nodes[i].address == frames[i].address
    &&& nodes[i].target == frames[i].target
    &&& nodes[i].data@ == frames[i].data@
    &&& nodes[i].subtree_end == span_end(shapes(frames), i)
    &&& nodes[i].children@.len() == frames[i].subtraces@.len()
    &&& forall|j: int|
        0 <= j < nodes[i].children@.len() ==> (#[trigger] nodes[i].children@[j]) as int
            == frames[i].subtraces@[j] as int
}

/// Whether `ends[k]` is the end of the subtree of frame `k`, inside the
/// sequence, for a frame `k` that is in order.
spec fn end_ok(frames: Seq<FrameShape>, ends: Seq<usize>, k: int) -> bool {
    &&& frame_ok(frames, k)
    &&& ends[k] == span_end(frames, k)
    &&& k < ends[k] <= frames.len()
}

/// Whether the range that ends at `ends[a]` lies inside the one that ends at
/// `ends[k]` whenever `a` does.
spec fn end_nests(ends: Seq<usize>, k: int, a: int) -> bool {
    k < a < ends[k] ==> ends[a] <= ends[k]
}

/// Whether the subtree of `a` stops at or before `reach`.
spec fn within(ends: Seq<usize>, a: int, reach: int) -> bool {
    ends[a] <= reach
}

/// The subtree ends of the frames `from..` are in place.
spec fn ends_done(frames: Seq<FrameShape>, ends: Seq<usize>, from: int) -> bool {
    &&& ends.len() == frames.len()
    &&& forall|k: int| from <= k < frames.len() ==> #[trigger] end_ok(frames, ends, k)
    &&& forall|k: int, a: int| from <= k < a < frames.len() ==> #[trigger] end_nests(ends, k, a)
}

/// Setting the end of frame `m`, once its children have been followed to
/// `reach`, extends the finished part by one frame.
proof fn lemma_ends_step(
    frames: Seq<FrameShape>,
    ends: Seq<usize>,
    m: int,
    reach: usize,
)
    requires
        0 <= m < frames.len(),
        ends_done(frames, ends, m + 1),
        frames[m].trace_index == m,
        frames[m].action_index == m,
        forall|q: int| 0 <= q < frames[m].subtraces.len() ==> #[trigger] child_ok(frames, m, q),
        reach == link(frames, m, frames[m].subtraces.len() as int),
        m < reach <= frames.len(),
        forall|a: int| m < a < reach ==> #[trigger] within(ends, a, reach as int),
    ensures
        ends_done(frames, ends.update(m, reach), m),
{
    let subs = frames[m].subtraces;
    let next = ends.update(m, reach);
    assert(chained(frames, m));
    if subs.len() > 0 {
        assert(child_ok(frames, m, subs.len() - 1));
    }
    assert(reach == span_end(frames, m));
    assert forall|k: int| m <= k < frames.len() implies #[trigger] end_ok(frames, next, k) by {
        if k > m {
            assert(end_ok(frames, ends, k));
        }
    }
    assert forall|k: int, a: int| m <= k < a < frames.len() implies #[trigger] end_nests(
        next,
        k,
        a,
    ) by {
        if k > m {
            assert(end_nests(ends, k, a));
        } else if a < reach {
            assert(within(ends, a, reach as int));
        }
    }
}

/// Following child `j` of frame `m`, which starts at `reach`, moves the
/// covered range on to the end of that child.
proof fn lemma_follow_child(
    frames: Seq<FrameShape>,
    ends: Seq<usize>,
    m: int,
    j: int,
    reach: usize,
)
    requires
        0 <= m < frames.len(),
        ends_done(frames, ends, m + 1),
        0 <= j < frames[m].subtraces.len(),
        reach == link(frames, m, j),
        frames[m].subtraces[j] == reach,
        m < reach < frames.len(),
        forall|a: int| m < a < reach ==> #[trigger] within(ends, a, reach as int),
    ensures
        child_ok(frames, m, j),
        ends[reach as int] == link(frames, m, j + 1),
        reach < ends[reach as int] <= frames.len(),
        forall|a: int| m < a < ends[reach as int] ==> #[trigger] within(ends, a, ends[reach as int] as int),
{
    let c = reach as int;
    assert(end_ok(frames, ends, c));
    let far = ends[c] as int;
    assert forall|a: int| m < a < far implies #[trigger] within(ends, a, far) by {
        if a < c {
            assert(within(ends, a, c));
        } else if a > c {
            assert(end_nests(ends, c, a));
        }
    }
}

/// Where the subtree of every frame ends, or nothing where the frames are
/// not a tree in pre-order.
fn compute_ends(frames: &Vec<ClassifiedFrame>) -> (r: Option<Vec<usize>>)
    ensures
        r.is_some() == forms_tree(shapes(frames@)),
        r matches Some(ends) ==> ends_done(shapes(frames@), ends@, 0),
{
    let n = frames.len();
    let ghost sh = shapes(frames@);
    if n == 0 {
        return None;
    }
    let mut ends: Vec<usize> = Vec::new();
    let mut k: usize = 0;
    while k < n
        invariant
            k <= n,
            ends@.len() == k,
        decreases n - k,
    {
        ends.push(0);
        k = k + 1;
    }
    let mut i: usize = n;
    while i > 0
        invariant
            i <= n,
            n == frames@.len(),
            sh == shapes(frames@),
            ends_done(sh, ends@, i as int),
        decreases i,
    {
        let m: usize = i - 1;
        let frame = &frames[m];
        assert(sh[m as int] == frames@[m as int].shape());
        if frame.trace_index != m as u64 || frame.data.trace_index() != m as u64 {
            assert(sh[m as int] == frames@[m as int].shape());
            assert(!frame_ok(sh, m as int));
            return None;
        }
        let mut expected: usize = m + 1;
        let mut j: usize = 0;
        while j < frame.subtraces.len()
            invariant
                j <= frame.subtraces@.len(),
                frame == frames@[m as int],
                sh[m as int] == frames@[m as int].shape(),
                m + 1 == i,
                i <= n,
                n == frames@.len(),
                sh == shapes(frames@),
                ends_done(sh, ends@, i as int),
                m < expected <= n,
                expected == link(sh, m as int, j as int),
                forall|q: int| 0 <= q < j ==> #[trigger] child_ok(sh, m as int, q),
                forall|a: int| m < a < expected ==> #[trigger] within(ends@, a, expected as int),
            decreases frame.subtraces@.len() - j,
        {
            let c: u64 = frame.subtraces[j];
            if c >= n as u64 || c != expected as u64 {
                proof {
                    assert(!child_ok(sh, m as int, j as int));
                    assert(!chained(sh, m as int));
                    assert(!frame_ok(sh, m as int));
                }
                return None;
            }
            let cu: usize = c as usize;
            proof {
                lemma_follow_child(sh, ends@, m as int, j as int, expected);
            }
            expected = ends[cu];
            j = j + 1;
        }
        proof {
            lemma_ends_step(sh, ends@, m as int, expected);
        }
        ends.set(m, expected);
        i = m;
    }
    assert(end_ok(sh, ends@, 0));
    if ends[0] != n {
        return None;
    }
    assert forall|i: int| 0 <= i < frames@.len() implies #[trigger] frame_ok(sh, i) by {
        assert(end_ok(sh, ends@, i));
    }
    Some(ends)
}

/// The child list of a frame as arena positions.
fn to_positions(subtraces: &Vec<u64>, n: usize) -> (r: Vec<usize>)
    requires
        forall|j: int| 0 <= j < subtraces@.len() ==> (#[trigger] subtraces@[j]) < n,
    ensures
        r@.len() == subtraces@.len(),
        forall|j: int| 0 <= j < r@.len() ==> (#[trigger] r@[j]) as int == subtraces@[j] as int,
{
    let mut r: Vec<usize> = Vec::new();
    let mut j: usize = 0;
    while j < subtraces.len()
        invariant
            j <= subtraces@.len(),
            r@.len() == j,
            forall|q: int| 0 <= q < subtraces@.len() ==> (#[trigger] subtraces@[q]) < n,
            forall|q: int| 0 <= q < j ==> (#[trigger] r@[q]) as int == subtraces@[q] as int,
        decreases subtraces@.len() - j,
    {
        r.push(subtraces[j] as usize);
        j = j + 1;
    }
    r
}

/// Copies of the recognized actions of the frames `from..to`, in order.
fn gather(frames: &Vec<ClassifiedFrame>, from: usize, to: usize) -> (r: Vec<Actions>)
    requires
        from <= to <= frames@.len(),
    ensures
        actions_view(r@) == classified(frame_actions(frames@), from as int, to as int),
{
    let mut r: Vec<Actions> = Vec::new();
    let mut k: usize = from;
    assert(actions_view(r@) =~= classified(frame_actions(frames@), from as int, from as int));
    while k < to
        invariant
            from <= k <= to <= frames@.len(),
            actions_view(r@) == classified(frame_actions(frames@), from as int, k as int),
        decreases to - k,
    {
        if !frames[k].data.is_unclassified() {
            let ghost before = r@;
            let a = frames[k].data.duplicate();
            r.push(a);
            assert(actions_view(r@) =~= actions_view(before).push(a@));
        }
        k = k + 1;
    }
    r
}

/// The tree of one transaction.
#[derive(Debug)]
pub struct Root {
    tx_hash: B256,
    position: usize,
    gas_details: GasDetails,
    nodes: Vec<Node>,
}

/// Whether node `k` mirrors frame `k` and holds the recognized actions of
/// the frame's subtree.
spec fn built(nodes: Seq<Node>, frames: Seq<ClassifiedFrame>, k: int) -> bool {
    &&& mirrors(nodes, frames, k)
    &&& actions_view(nodes[k].subactions@) == classified(
        frame_actions(frames),
        k,
        span_end(shapes(frames), k),
    )
}

impl Root {
    /// The arena of the tree: its nodes in pre-order.
    pub closed spec fn nodes(&self) -> Seq<Node> {
        self.nodes@
    }

    /// The hash of the transaction.
    pub closed spec fn hash(&self) -> B256 {
        self.tx_hash
    }

    /// The place of the transaction in its block.
    pub closed spec fn index(&self) -> usize {
        self.position
    }

    /// What the transaction paid.
    pub closed spec fn gas(&self) -> GasDetails {
        self.gas_details
    }

    /// Whether the tree is well formed.
    pub open spec fn wf(&self) -> bool {
        arena_wf(self.nodes())
    }

    /// Builds the tree of a transaction from its classified frames. The
    /// frames must come in pre-order; where they do not form a tree, nothing
    /// is built.
    pub fn assemble(
        tx_hash: B256,
        position: usize,
        gas_details: GasDetails,
        frames: &Vec<ClassifiedFrame>,
    ) -> (r: Option<Root>)
        ensures
            r.is_some() == forms_tree(shapes(frames@)),
            r matches Some(root) ==> {
                &&& root.wf()
                &&& root.hash() == tx_hash
                &&& root.index() == position
                &&& root.gas() == gas_details
                &&& root.nodes().len() == frames@.len()
                &&& forall|i: int|
                    0 <= i < frames@.len() ==> #[trigger] mirrors(root.nodes(), frames@, i)
            },
    {
        let ends = match compute_ends(frames) {
            Some(ends) => ends,
            None => {
                return None;
            },
        };
        let n = frames.len();
        let mut nodes: Vec<Node> = Vec::new();
        let mut i: usize = 0;
        while i < n
            invariant
                i <= n,
                n == frames@.len(),
                forms_tree(shapes(frames@)),
                ends_done(shapes(frames@), ends@, 0),
                nodes@.len() == i,
                forall|k: int| 0 <= k < i ==> #[trigger] built(nodes@, frames@, k),
            decreases n - i,
        {
            let frame = &frames[i];
            proof {
                assert(end_ok(shapes(frames@), ends@, i as int));
                assert(chained(shapes(frames@), i as int));
                assert(shapes(frames@)[i as int] == frames@[i as int].shape());
                assert forall|j: int| 0 <= j < frame.subtraces@.len() implies (
                #[trigger] frame.subtraces@[j]) < n by {
                    assert(child_ok(shapes(frames@), i as int, j));
                }
            }
            let children = to_positions(&frame.subtraces, n);
            let subactions = gather(frames, i, ends[i]);
            let node = Node {
                trace_index: frame.trace_index,
                address: frame.address,
                target: frame.target,
                data: frame.data.duplicate(),
                subactions,
                children,
                subtree_end: ends[i],
            };
            let ghost before = nodes@;
            nodes.push(node);
            proof {
                assert forall|k: int| 0 <= k < i + 1 implies #[trigger] built(
                    nodes@,
                    frames@,
                    k,
                ) by {
                    if k < i {
                        assert(built(before, frames@, k));
                        assert(nodes@[k] == before[k]);
                    }
                }
            }
            i = i + 1;
        }
        proof {
            lemma_mirrored_arena(nodes@, frames@, ends@);
            assert forall|i: int| 0 <= i < frames@.len() implies #[trigger] mirrors(
                nodes@,
                frames@,
                i,
            ) by {
                assert(built(nodes@, frames@, i));
            }
        }
        Some(Root { tx_hash, position, gas_details, nodes })
    }
}

/// An arena that mirrors a tree of frames, with the recognized actions of
/// each subtree in place, is well formed.
proof fn lemma_mirrored_arena(nodes: Seq<Node>, frames: Seq<ClassifiedFrame>, ends: Seq<usize>)
    requires
        forms_tree(shapes(frames)),
        ends_done(shapes(frames), ends, 0),
        nodes.len() == frames.len(),
        forall|k: int| 0 <= k < frames.len() ==> #[trigger] built(nodes, frames, k),
    ensures
        arena_wf(nodes),
{
    let n = frames.len() as int;
    assert(node_actions(nodes) =~= frame_actions(frames)) by {
        assert forall|k: int| 0 <= k < n implies node_actions(nodes)[k] == frame_actions(
            frames,
        )[k] by {
            assert(built(nodes, frames, k));
        }
    }
    assert forall|i: int| 0 <= i < n implies #[trigger] node_wf(nodes, i) by {
        lemma_mirrored_node(nodes, frames, ends, i);
    }
    assert forall|i: int, a: int| 0 <= i < a < n implies #[trigger] nests(nodes, i, a) by {
        assert(built(nodes, frames, i));
        assert(built(nodes, frames, a));
        assert(end_ok(shapes(frames), ends, i));
        assert(end_ok(shapes(frames), ends, a));
        assert(end_nests(ends, i, a));
    }
    assert(built(nodes, frames, 0));
}

/// Node `i` of an arena that mirrors a tree of frames is well formed.
proof fn lemma_mirrored_node(
    nodes: Seq<Node>,
    frames: Seq<ClassifiedFrame>,
    ends: Seq<usize>,
    i: int,
)
    requires
        0 <= i < frames.len(),
        ends_done(shapes(frames), ends, 0),
        nodes.len() == frames.len(),
        node_actions(nodes) == frame_actions(frames),
        forall|k: int| 0 <= k < frames.len() ==> #[trigger] built(nodes, frames, k),
    ensures
        node_wf(nodes, i),
{
    let n = frames.len() as int;
    assert(built(nodes, frames, i));
    assert(end_ok(shapes(frames), ends, i));
    assert(chained(shapes(frames), i));
    assert(shapes(frames)[i] == frames[i].shape());
    let kids = nodes[i].children@;
    let subs = frames[i].subtraces@;
    assert forall|j: int| 0 <= j < kids.len() implies #[trigger] kid_ok(nodes, i, j) by {
        assert(kids[j] as int == subs[j] as int);
        assert(child_ok(shapes(frames), i, j));
        if j + 1 < kids.len() {
            assert(kids[j + 1] as int == subs[j + 1] as int);
            assert(child_ok(shapes(frames), i, j + 1));
            assert(built(nodes, frames, kids[j] as int));
        }
    }
    if kids.len() > 0 {
        assert(kids[0] as int == subs[0] as int);
        assert(child_ok(shapes(frames), i, 0));
        assert(kids.last() as int == subs.last() as int);
        assert(child_ok(shapes(frames), i, subs.len() - 1));
        assert(built(nodes, frames, kids.last() as int));
    }
}

/// Whether an executable predicate on nodes can be called on every node.
pub open spec fn callable<F: Fn(&Node) -> bool>(f: F) -> bool {
    forall|node: Node| #[trigger] call_requires(f, (&node,))
}

/// Whether an executable predicate on nodes answers as the predicate `p`
/// does, whenever it answers.
pub open spec fn computes<F: Fn(&Node) -> bool>(f: F, p: spec_fn(Node) -> bool) -> bool {
    forall|node: Node, b: bool| #[trigger] call_ensures(f, (&node,), b) ==> b == p(node)
}

/// Whether node `i` satisfies the predicate and none of its ancestors does.
pub open spec fn topmost(nodes: Seq<Node>, p: spec_fn(Node) -> bool, i: int) -> bool {
    &&& p(nodes[i])
    &&& forall|a: int| 0 <= a < i && i < end_of(nodes, a) ==> !p(#[trigger] nodes[a])
}

/// The subaction lists of the topmost matching nodes among the first `k`
/// nodes, in pre-order.
pub open spec fn matches_upto(nodes: Seq<Node>, p: spec_fn(Node) -> bool, k: int) -> Seq<
    Seq<ActionView>,
>
    decreases k,
{
    if k <= 0 {
        Seq::empty()
    } else if topmost(nodes, p, k - 1) {
        matches_upto(nodes, p, k - 1).push(actions_view(nodes[k - 1].subactions@))
    } else {
        matches_upto(nodes, p, k - 1)
    }
}

/// A sequence without its repetitions: each value stays where it first
/// occurs.
pub open spec fn without_repeats<T>(s: Seq<T>) -> Seq<T>
    decreases s.len(),
{
    if s.len() == 0 {
        Seq::empty()
    } else {
        let before = without_repeats(s.drop_last());
        if before.contains(s.last()) {
            before
        } else {
            before.push(s.last())
        }
    }
}

/// What a vector of action lists holds.
pub open spec fn lists_view(lists: Seq<Vec<Actions>>) -> Seq<Seq<ActionView>> {
    lists.map_values(|l: Vec<Actions>| actions_view(l@))
}

/// The actions of the nodes among the first `k` that satisfy the predicate,
/// in pre-order.
pub open spec fn picked_upto(nodes: Seq<Node>, p: spec_fn(Node) -> bool, k: int) -> Seq<
    ActionView,
>
    decreases k,
{
    if k <= 0 {
        Seq::empty()
    } else if p(nodes[k - 1]) {
        picked_upto(nodes, p, k - 1).push(nodes[k - 1].data@)
    } else {
        picked_upto(nodes, p, k - 1)
    }
}

/// No node strictly inside the subtree of a matching node is topmost.
proof fn lemma_skip_subtree(nodes: Seq<Node>, p: spec_fn(Node) -> bool, i: int, k: int)
    requires
        arena_wf(nodes),
        0 <= i < nodes.len(),
        i < k <= end_of(nodes, i),
        p(nodes[i]),
    ensures
        matches_upto(nodes, p, k) == matches_upto(nodes, p, i + 1),
    decreases k - i,
{
    assert(node_wf(nodes, i));
    if k > i + 1 {
        lemma_skip_subtree(nodes, p, i, k - 1);
        assert(!topmost(nodes, p, k - 1));
    }
}

/// Whether a list of action lists holds one with the given content.
fn holds_list(lists: &Vec<Vec<Actions>>, wanted: &Vec<Actions>) -> (r: bool)
    ensures
        r == lists_view(lists@).contains(actions_view(wanted@)),
{
    let mut i: usize = 0;
    while i < lists.len()
        invariant
            i <= lists@.len(),
            forall|k: int| 0 <= k < i ==> lists_view(lists@)[k] != actions_view(wanted@),
        decreases lists@.len() - i,
    {
        if same_actions(&lists[i], wanted) {
            assert(lists_view(lists@)[i as int] == actions_view(wanted@));
            return true;
        }
        i = i + 1;
    }
    false
}

impl Root {
    /// The hash of the transaction.
    pub fn tx_hash(&self) -> (h: B256)
        ensures
            h == self.hash(),
    {
        self.tx_hash
    }

    /// The place of the transaction in its block.
    pub fn get_block_position(&self) -> (p: usize)
        ensures
            p == self.index(),
    {
        self.position
    }

    /// What the transaction paid.
    pub fn get_gas_details(&self) -> (g: GasDetails)
        ensures
            g == self.gas(),
    {
        self.gas_details
    }

    /// The number of call frames in the tree.
    pub fn len(&self) -> (n: usize)
        ensures
            n == self.nodes().len(),
    {
        self.nodes.len()
    }

    /// The node at an arena position.
    pub fn node(&self, i: usize) -> (n: &Node)
        requires
            i < self.nodes().len(),
        ensures
            *n == self.nodes()[i as int],
    {
        &self.nodes[i]
    }

    /// The outermost call of the transaction.
    pub fn head(&self) -> (n: &Node)
        requires
            self.wf(),
        ensures
            *n == self.nodes()[0],
    {
        &self.nodes[0]
    }

    /// The subaction lists of the topmost nodes that satisfy the predicate,
    /// in pre-order and without repetitions: a matching node inside the
    /// subtree of another matching node adds nothing, since its list is a
    /// slice of the outer one.
    pub fn inspect<F: Fn(&Node) -> bool>(&self, call: &F) -> (r: Vec<Vec<Actions>>)
        requires
            self.wf(),
            callable(*call),
        ensures
            forall|p: spec_fn(Node) -> bool|
                computes(*call, p) ==> lists_view(r@) == #[trigger] root_hits(self.nodes(), p),
    {
        let n = self.nodes.len();
        let mut r: Vec<Vec<Actions>> = Vec::new();
        let mut i: usize = 0;
        assert(lists_view(r@) =~= Seq::<Seq<ActionView>>::empty());
        while i < n
            invariant
                i <= n,
                n == self.nodes@.len(),
                arena_wf(self.nodes@),
                callable(*call),
                forall|p: spec_fn(Node) -> bool|
                    computes(*call, p) ==> scanned(
                        self.nodes@,
                        p,
                        i as int,
                        #[trigger] matches_upto(self.nodes@, p, i as int),
                        lists_view(r@),
                    ),
            decreases n - i,
        {
            let node = &self.nodes[i];
            let ghost before = r@;
            proof {
                assert(node_wf(self.nodes@, i as int));
                assert(call_requires(*call, (node,)));
            }
            let hit = call(node);
            if hit {
                if !holds_list(&r, &node.subactions) {
                    let copy = clone_actions(&node.subactions);
                    r.push(copy);
                    assert(lists_view(r@) =~= lists_view(before).push(
                        actions_view(node.subactions@),
                    ));
                }
                proof {
                    assert forall|p: spec_fn(Node) -> bool| computes(*call, p) implies scanned(
                        self.nodes@,
                        p,
                        node.subtree_end as int,
                        #[trigger] matches_upto(self.nodes@, p, node.subtree_end as int),
                        lists_view(r@),
                    ) by {
                        assert(scanned(
                            self.nodes@,
                            p,
                            i as int,
                            matches_upto(self.nodes@, p, i as int),
                            lists_view(before),
                        ));
                        lemma_scan_hit(self.nodes@, p, i as int, lists_view(before), lists_view(r@));
                    }
                }
                i = node.subtree_end;
            } else {
                proof {
                    assert forall|p: spec_fn(Node) -> bool| computes(*call, p) implies scanned(
                        self.nodes@,
                        p,
                        i + 1,
                        #[trigger] matches_upto(self.nodes@, p, i + 1),
                        lists_view(r@),
                    ) by {
                        assert(scanned(
                            self.nodes@,
                            p,
                            i as int,
                            matches_upto(self.nodes@, p, i as int),
                            lists_view(before),
                        ));
                        assert(!topmost(self.nodes@, p, i as int));
                    }
                }
                i = i + 1;
            }
        }
        proof {
            assert forall|p: spec_fn(Node) -> bool| computes(*call, p) implies lists_view(r@)
                == #[trigger] root_hits(self.nodes(), p) by {
                assert(scanned(
                    self.nodes@,
                    p,
                    n as int,
                    matches_upto(self.nodes@, p, n as int),
                    lists_view(r@),
                ));
            }
        }
        r
    }

    /// Copies of the actions of every node that satisfies the predicate, in
    /// pre-order.
    pub fn collect<F: Fn(&Node) -> bool>(&self, call: &F) -> (r: Vec<Actions>)
        requires
            callable(*call),
        ensures
            forall|p: spec_fn(Node) -> bool|
                computes(*call, p) ==> actions_view(r@) == #[trigger] picked_upto(
                    self.nodes(),
                    p,
                    self.nodes().len() as int,
                ),
    {
        let n = self.nodes.len();
        let mut r: Vec<Actions> = Vec::new();
        let mut i: usize = 0;
        assert(actions_view(r@) =~= Seq::<ActionView>::empty());
        while i < n
            invariant
                i <= n,
                n == self.nodes@.len(),
                callable(*call),
                forall|p: spec_fn(Node) -> bool|
                    computes(*call, p) ==> actions_view(r@) == #[trigger] picked_upto(
                        self.nodes@,
                        p,
                        i as int,
                    ),
            decreases n - i,
        {
            let node = &self.nodes[i];
            let ghost before = r@;
            assert(call_requires(*call, (node,)));
            let hit = call(node);
            if hit {
                let a = node.data.duplicate();
                r.push(a);
                assert(actions_view(r@) =~= actions_view(before).push(a@));
            }
            proof {
                assert forall|p: spec_fn(Node) -> bool| computes(*call, p) implies actions_view(r@)
                    == #[trigger] picked_upto(self.nodes@, p, i + 1) by {
                    assert(actions_view(before) == picked_upto(self.nodes@, p, i as int));
                }
            }
            i = i + 1;
        }
        r
    }
}

/// Where a scan for topmost matches stands at position `i`: `found` are the
/// matches so far, `kept` is `found` without repetitions, and no node before
/// `i` whose subtree reaches beyond `i` satisfies the predicate.
pub open spec fn scanned(
    nodes: Seq<Node>,
    p: spec_fn(Node) -> bool,
    i: int,
    found: Seq<Seq<ActionView>>,
    kept: Seq<Seq<ActionView>>,
) -> bool {
    &&& found == matches_upto(nodes, p, i)
    &&& kept == without_repeats(found)
    &&& forall|a: int| 0 <= a < i && i < end_of(nodes, a) ==> !p(#[trigger] nodes[a])
}

/// A scan that meets a matching node at `i` takes its list, unless it is
/// kept already, and goes on behind the node's subtree.
proof fn lemma_scan_hit(
    nodes: Seq<Node>,
    p: spec_fn(Node) -> bool,
    i: int,
    kept: Seq<Seq<ActionView>>,
    next: Seq<Seq<ActionView>>,
)
    requires
        arena_wf(nodes),
        0 <= i < nodes.len(),
        p(nodes[i]),
        scanned(nodes, p, i, matches_upto(nodes, p, i), kept),
        next == if kept.contains(actions_view(nodes[i].subactions@)) {
            kept
        } else {
            kept.push(actions_view(nodes[i].subactions@))
        },
    ensures
        scanned(nodes, p, end_of(nodes, i), matches_upto(nodes, p, end_of(nodes, i)), next),
{
    let e = end_of(nodes, i);
    let slice = actions_view(nodes[i].subactions@);
    let found = matches_upto(nodes, p, i);
    assert(node_wf(nodes, i));
    assert(topmost(nodes, p, i));
    lemma_skip_subtree(nodes, p, i, e);
    assert(matches_upto(nodes, p, e) == found.push(slice));
    assert(found.push(slice).drop_last() =~= found);
    assert forall|a: int| 0 <= a < e && e < end_of(nodes, a) implies !p(#[trigger] nodes[a]) by {
        if a > i {
            assert(nests(nodes, i, a));
        }
    }
}

/// The arena positions that a pre-order walk from node `i` visits: the node,
/// then the walks from its children in call order.
pub open spec fn walk(nodes: Seq<Node>, i: int) -> Seq<int>
    decreases nodes.len() - i, nodes[i].children@.len() + 1,
{
    if 0 <= i < nodes.len() {
        seq![i] + walk_kids(nodes, i, 0)
    } else {
        Seq::empty()
    }
}

/// The positions that the walks from the children `j..` of node `i` visit.
pub open spec fn walk_kids(nodes: Seq<Node>, i: int, j: int) -> Seq<int>
    decreases nodes.len() - i, nodes[i].children@.len() - j,
{
    if 0 <= i < nodes.len() && 0 <= j < nodes[i].children@.len() {
        let c = nodes[i].children@[j] as int;
        if i < c < nodes.len() {
            walk(nodes, c) + walk_kids(nodes, i, j + 1)
        } else {
            walk_kids(nodes, i, j + 1)
        }
    } else {
        Seq::empty()
    }
}

/// The positions `from`, `from + 1`, up to but not including `to`.
pub open spec fn positions(from: int, to: int) -> Seq<int> {
    Seq::new((to - from) as nat, |k: int| from + k)
}

/// Where child `j` of node `i` starts, or where the subtree of `i` ends if
/// it has no such child.
pub open spec fn kid_start(nodes: Seq<Node>, i: int, j: int) -> int {
    if j < nodes[i].children@.len() {
        nodes[i].children@[j] as int
    } else {
        end_of(nodes, i)
    }
}

/// In a well-formed arena the walk from a node visits exactly the range of
/// its subtree, in ascending order.
pub proof fn lemma_walk_is_range(nodes: Seq<Node>, i: int)
    requires
        arena_wf(nodes),
        0 <= i < nodes.len(),
    ensures
        walk(nodes, i) == positions(i, end_of(nodes, i)),
    decreases nodes.len() - i, nodes[i].children@.len() + 1,
{
    assert(node_wf(nodes, i));
    lemma_walk_kids_is_range(nodes, i, 0);
    assert(kid_start(nodes, i, 0) == i + 1);
    assert(walk(nodes, i) =~= positions(i, end_of(nodes, i)));
}

/// In a well-formed arena the walks from the children `j..` of a node visit
/// exactly the rest of its subtree, in ascending order.
pub proof fn lemma_walk_kids_is_range(nodes: Seq<Node>, i: int, j: int)
    requires
        arena_wf(nodes),
        0 <= i < nodes.len(),
        0 <= j <= nodes[i].children@.len(),
    ensures
        i < kid_start(nodes, i, j) <= end_of(nodes, i),
        walk_kids(nodes, i, j) == positions(kid_start(nodes, i, j), end_of(nodes, i)),
    decreases nodes.len() - i, nodes[i].children@.len() - j,
{
    assert(node_wf(nodes, i));
    let kids = nodes[i].children@;
    if j < kids.len() {
        assert(kid_ok(nodes, i, j));
        let c = kids[j] as int;
        assert(node_wf(nodes, c));
        assert(nests(nodes, i, c));
        lemma_walk_is_range(nodes, c);
        lemma_walk_kids_is_range(nodes, i, j + 1);
        if j + 1 < kids.len() {
            assert(kid_start(nodes, i, j + 1) == end_of(nodes, c));
        } else {
            assert(kids.last() == kids[j]);
            assert(kid_start(nodes, i, j + 1) == end_of(nodes, c));
        }
        assert(walk_kids(nodes, i, j) =~= positions(c, end_of(nodes, i)));
    } else {
        assert(walk_kids(nodes, i, j) =~= positions(end_of(nodes, i), end_of(nodes, i)));
    }
}

/// Tree monotonicity: the pre-order walk of a well-formed tree visits every
/// node once, and the trace indices it meets are strictly increasing.
pub proof fn lemma_preorder_increasing(nodes: Seq<Node>)
    requires
        arena_wf(nodes),
    ensures
        walk(nodes, 0).len() == nodes.len(),
        forall|a: int, b: int|
            0 <= a < b < nodes.len() ==> nodes[#[trigger] walk(nodes, 0)[a]].trace_index
                < nodes[#[trigger] walk(nodes, 0)[b]].trace_index,
{
    lemma_walk_is_range(nodes, 0);
    assert forall|a: int, b: int| 0 <= a < b < nodes.len() implies nodes[#[trigger] walk(
        nodes,
        0,
    )[a]].trace_index < nodes[#[trigger] walk(nodes, 0)[b]].trace_index by {
        assert(node_wf(nodes, a));
        assert(node_wf(nodes, b));
    }
}

/// The action of node `i` as a list: one entry if it was recognized, none
/// otherwise.
pub open spec fn own_action(nodes: Seq<Node>, i: int) -> Seq<ActionView> {
    if nodes[i].data@.is_classified() {
        seq![nodes[i].data@]
    } else {
        Seq::empty()
    }
}

/// The subaction lists of the children `j..` of node `i`, one after the
/// other.
pub open spec fn kids_subactions(nodes: Seq<Node>, i: int, j: int) -> Seq<ActionView>
    decreases nodes[i].children@.len() - j,
{
    if 0 <= j < nodes[i].children@.len() {
        actions_view(nodes[nodes[i].children@[j] as int].subactions@) + kids_subactions(
            nodes,
            i,
            j + 1,
        )
    } else {
        Seq::empty()
    }
}

/// The subaction lists of the children `j..` of a node are the recognized
/// actions of the rest of its subtree.
proof fn lemma_kids_subactions(nodes: Seq<Node>, i: int, j: int)
    requires
        arena_wf(nodes),
        0 <= i < nodes.len(),
        0 <= j <= nodes[i].children@.len(),
    ensures
        kids_subactions(nodes, i, j) == classified(
            node_actions(nodes),
            kid_start(nodes, i, j),
            end_of(nodes, i),
        ),
    decreases nodes[i].children@.len() - j,
{
    assert(node_wf(nodes, i));
    let kids = nodes[i].children@;
    let data = node_actions(nodes);
    lemma_walk_kids_is_range(nodes, i, j);
    if j < kids.len() {
        assert(kid_ok(nodes, i, j));
        let c = kids[j] as int;
        assert(node_wf(nodes, c));
        assert(nests(nodes, i, c));
        lemma_kids_subactions(nodes, i, j + 1);
        lemma_walk_kids_is_range(nodes, i, j + 1);
        if j + 1 >= kids.len() {
            assert(kids.last() == kids[j]);
        }
        assert(kid_start(nodes, i, j + 1) == end_of(nodes, c));
        lemma_classified_split(data, c, end_of(nodes, c), end_of(nodes, i));
    } else {
        assert(classified(data, end_of(nodes, i), end_of(nodes, i)) =~= Seq::<ActionView>::empty());
    }
}

/// Subactions completeness: the subactions of a node are its own action, if
/// it was recognized, followed by the subactions of its children in call
/// order.
pub proof fn lemma_subactions_complete(nodes: Seq<Node>, i: int)
    requires
        arena_wf(nodes),
        0 <= i < nodes.len(),
    ensures
        actions_view(nodes[i].subactions@) == own_action(nodes, i) + kids_subactions(nodes, i, 0),
{
    assert(node_wf(nodes, i));
    let data = node_actions(nodes);
    lemma_kids_subactions(nodes, i, 0);
    assert(kid_start(nodes, i, 0) == i + 1);
    lemma_classified_split(data, i, i + 1, end_of(nodes, i));
    assert(classified(data, i, i) =~= Seq::<ActionView>::empty());
    assert(classified(data, i, i + 1) =~= own_action(nodes, i));
}

/// The recognized actions of a range come from positions of the range, in
/// ascending order of position.
pub proof fn lemma_classified_ordered(nodes: Seq<Node>, from: int, to: int)
    requires
        arena_wf(nodes),
        0 <= from <= to <= nodes.len(),
    ensures
        forall|k: int|
            0 <= k < classified(node_actions(nodes), from, to).len() ==> from <= (
            #[trigger] classified(node_actions(nodes), from, to)[k]).trace_index() < to,
        forall|a: int, b: int|
            0 <= a < b < classified(node_actions(nodes), from, to).len() ==> (#[trigger] classified(
                node_actions(nodes),
                from,
                to,
            )[a]).trace_index() < (#[trigger] classified(node_actions(nodes), from, to)[b]).trace_index(),
    decreases to - from,
{
    let data = node_actions(nodes);
    let cur = classified(data, from, to);
    if from < to {
        lemma_classified_ordered(nodes, from, to - 1);
        assert(node_wf(nodes, to - 1));
        let prev = classified(data, from, to - 1);
        assert(data[to - 1].trace_index() == to - 1);
        assert forall|k: int| 0 <= k < cur.len() implies from <= (#[trigger] cur[k]).trace_index()
            < to by {
            if k < prev.len() {
                assert(cur[k] == prev[k]);
            }
        }
        assert forall|a: int, b: int| 0 <= a < b < cur.len() implies (#[trigger] cur[a]).trace_index()
            < (#[trigger] cur[b]).trace_index() by {
            assert(cur[a] == prev[a]);
            if b < prev.len() {
                assert(cur[b] == prev[b]);
            }
        }
    }
}

/// The subactions of a node are sorted by trace index, and every one of
/// them was produced inside the node's subtree.
pub proof fn lemma_subactions_sorted(nodes: Seq<Node>, i: int)
    requires
        arena_wf(nodes),
        0 <= i < nodes.len(),
    ensures
        forall|k: int|
            0 <= k < nodes[i].subactions@.len() ==> i <= (#[trigger] actions_view(
                nodes[i].subactions@,
            )[k]).trace_index() < end_of(nodes, i),
        forall|a: int, b: int|
            0 <= a < b < nodes[i].subactions@.len() ==> (#[trigger] actions_view(
                nodes[i].subactions@,
            )[a]).trace_index() < (#[trigger] actions_view(nodes[i].subactions@)[b]).trace_index(),
{
    assert(node_wf(nodes, i));
    lemma_classified_ordered(nodes, i, end_of(nodes, i));
}

/// The recognized action of every position of a range is among the
/// recognized actions of the range.
pub proof fn lemma_classified_covers(data: Seq<ActionView>, from: int, to: int, p: int)
    requires
        0 <= from <= p < to <= data.len(),
        data[p].is_classified(),
    ensures
        classified(data, from, to).contains(data[p]),
    decreases to - from,
{
    let cur = classified(data, from, to);
    if p == to - 1 {
        assert(cur[cur.len() - 1] == data[p]);
    } else {
        lemma_classified_covers(data, from, to - 1, p);
        let prev = classified(data, from, to - 1);
        let k = choose|k: int| 0 <= k < prev.len() && prev[k] == data[p];
        assert(cur[k] == data[p]);
    }
}

/// The subactions of a node hold every recognized action of its subtree.
pub proof fn lemma_subactions_cover(nodes: Seq<Node>, i: int, p: int)
    requires
        arena_wf(nodes),
        0 <= i < nodes.len(),
        i <= p < end_of(nodes, i),
        nodes[p].data@.is_classified(),
    ensures
        actions_view(nodes[i].subactions@).contains(nodes[p].data@),
{
    assert(node_wf(nodes, i));
    lemma_classified_covers(node_actions(nodes), i, end_of(nodes, i), p);
}

/// The subaction lists that `Root::inspect` reports for an arena.
pub open spec fn root_hits(nodes: Seq<Node>, p: spec_fn(Node) -> bool) -> Seq<Seq<ActionView>> {
    without_repeats(matches_upto(nodes, p, nodes.len() as int))
}

/// A sequence has entries left once its repetitions are gone exactly when
/// it had entries.
pub proof fn lemma_without_repeats_empty<T>(s: Seq<T>)
    ensures
        without_repeats(s).len() == 0 <==> s.len() == 0,
    decreases s.len(),
{
    if s.len() > 0 {
        lemma_without_repeats_empty(s.drop_last());
        let before = without_repeats(s.drop_last());
        if before.contains(s.last()) {
            let k = choose|k: int| 0 <= k < before.len() && before[k] == s.last();
        }
    }
}

/// Among the first `k` nodes there is a topmost match exactly when some
/// node satisfies the predicate.
pub proof fn lemma_matches_nonempty(nodes: Seq<Node>, pred: spec_fn(Node) -> bool, k: int)
    requires
        0 <= k <= nodes.len(),
    ensures
        matches_upto(nodes, pred, k).len() > 0 <==> exists|q: int|
            0 <= q < k && pred(#[trigger] nodes[q]),
    decreases k,
{
    if k > 0 {
        lemma_matches_nonempty(nodes, pred, k - 1);
        if matches_upto(nodes, pred, k - 1).len() > 0 {
            let q = choose|q: int| 0 <= q < k - 1 && pred(#[trigger] nodes[q]);
            assert(0 <= q < k && pred(nodes[q]));
        } else if pred(nodes[k - 1]) {
            assert(topmost(nodes, pred, k - 1));
        } else {
            assert(!topmost(nodes, pred, k - 1));
            if exists|q: int| 0 <= q < k && pred(#[trigger] nodes[q]) {
                let q = choose|q: int| 0 <= q < k && pred(#[trigger] nodes[q]);
                assert(0 <= q < k - 1 && pred(nodes[q]));
            }
        }
    }
}

/// A tree reports something exactly when one of its nodes satisfies the
/// predicate.
pub proof fn lemma_hits_nonempty(nodes: Seq<Node>, pred: spec_fn(Node) -> bool)
    ensures
        root_hits(nodes, pred).len() > 0 <==> exists|q: int|
            0 <= q < nodes.len() && pred(#[trigger] nodes[q]),
{
    lemma_matches_nonempty(nodes, pred, nodes.len() as int);
    lemma_without_repeats_empty(matches_upto(nodes, pred, nodes.len() as int));
}

/// What `BlockTree::inspect_all` reports for the first `k` transactions: for
/// each tree in which some node satisfies the predicate, the hash of the
/// transaction with the lists that its tree reports.
pub open spec fn hits_upto(roots: Seq<Root>, p: spec_fn(Node) -> bool, k: int) -> Seq<
    (B256, Seq<Seq<ActionView>>),
>
    decreases k,
{
    if k <= 0 {
        Seq::empty()
    } else {
        let hits = root_hits(roots[k - 1].nodes(), p);
        if hits.len() > 0 {
            hits_upto(roots, p, k - 1).push((roots[k - 1].hash(), hits))
        } else {
            hits_upto(roots, p, k - 1)
        }
    }
}

/// What a vector of reports holds.
pub open spec fn reports_view(reports: Seq<(B256, Vec<Vec<Actions>>)>) -> Seq<
    (B256, Seq<Seq<ActionView>>),
> {
    reports.map_values(|e: (B256, Vec<Vec<Actions>>)| (e.0, lists_view(e.1@)))
}

/// Whether `i` is the first tree of the block with the given transaction
/// hash.
pub open spec fn first_with(roots: Seq<Root>, hash: B256, i: int) -> bool {
    &&& 0 <= i < roots.len()
    &&& roots[i].hash() == hash
    &&& forall|j: int| 0 <= j < i ==> (#[trigger] roots[j]).hash() != hash
}

/// The trees of the transactions of one block, in block order.
#[derive(Debug)]
pub struct BlockTree {
    roots: Vec<Root>,
    block_number: u64,
}

impl BlockTree {
    /// The trees, in block order.
    pub closed spec fn roots(&self) -> Seq<Root> {
        self.roots@
    }

    /// The number of the block.
    pub closed spec fn number(&self) -> u64 {
        self.block_number
    }

    /// Whether every tree of the block is well formed and no two trees
    /// have the same transaction hash.
    pub open spec fn wf(&self) -> bool {
        &&& forall|i: int| 0 <= i < self.roots().len() ==> (#[trigger] self.roots()[i]).wf()
        &&& forall|i: int, j: int|
            0 <= i < j < self.roots().len() ==> (#[trigger] self.roots()[i]).hash() != (
            #[trigger] self.roots()[j]).hash()
    }

    /// Whether the block has a tree with the given transaction hash.
    pub open spec fn has(&self, tx_hash: B256) -> bool {
        exists|i: int| 0 <= i < self.roots().len() && (#[trigger] self.roots()[i]).hash() == tx_hash
    }

    /// A block without transactions.
    pub fn new(block_number: u64) -> (t: BlockTree)
        ensures
            t.wf(),
            t.roots().len() == 0,
            t.number() == block_number,
    {
        BlockTree { roots: Vec::new(), block_number }
    }

    /// Whether the block has a tree with the given transaction hash.
    pub fn contains(&self, tx_hash: B256) -> (b: bool)
        ensures
            b == self.has(tx_hash),
    {
        self.get_root(tx_hash).is_some()
    }

    /// Appends the tree of the next transaction, whose hash no tree of the
    /// block has yet.
    pub fn insert_root(&mut self, root: Root)
        requires
            old(self).wf(),
            root.wf(),
            !old(self).has(root.hash()),
        ensures
            final(self).wf(),
            final(self).roots() == old(self).roots().push(root),
            final(self).number() == old(self).number(),
    {
        let ghost before = self.roots@;
        self.roots.push(root);
        proof {
            assert forall|i: int| 0 <= i < self.roots@.len() implies (#[trigger] self.roots@[i]).wf() by {
                if i < before.len() {
                    assert(old(self).roots()[i].wf());
                    assert(self.roots@[i] == before[i]);
                }
            }
            assert forall|i: int, j: int| 0 <= i < j < self.roots@.len() implies (
            #[trigger] self.roots@[i]).hash() != (#[trigger] self.roots@[j]).hash() by {
                assert(self.roots@[i] == before[i]);
                if j < before.len() {
                    assert(self.roots@[j] == before[j]);
                    assert(old(self).roots()[i].hash() != old(self).roots()[j].hash());
                } else {
                    assert(old(self).roots()[i].hash() != root.hash());
                }
            }
        }
    }

    /// The number of the block.
    pub fn block_number(&self) -> (n: u64)
        ensures
            n == self.number(),
    {
        self.block_number
    }

    /// The number of transactions.
    pub fn len(&self) -> (n: usize)
        ensures
            n == self.roots().len(),
    {
        self.roots.len()
    }

    /// The tree at a place in the block.
    pub fn root(&self, i: usize) -> (r: &Root)
        requires
            i < self.roots().len(),
        ensures
            *r == self.roots()[i as int],
    {
        &self.roots[i]
    }

    /// The first tree with the given transaction hash.
    pub fn get_root(&self, tx_hash: B256) -> (r: Option<&Root>)
        ensures
            match r {
                Some(root) => exists|i: int|
                    first_with(self.roots(), tx_hash, i) && *root == #[trigger] self.roots()[i],
                None => forall|i: int|
                    0 <= i < self.roots().len() ==> (#[trigger] self.roots()[i]).hash() != tx_hash,
            },
    {
        let mut i: usize = 0;
        while i < self.roots.len()
            invariant
                i <= self.roots@.len(),
                forall|j: int| 0 <= j < i ==> (#[trigger] self.roots@[j]).hash() != tx_hash,
            decreases self.roots@.len() - i,
        {
            if self.roots[i].tx_hash() == tx_hash {
                assert(first_with(self.roots(), tx_hash, i as int));
                return Some(&self.roots[i]);
            }
            i = i + 1;
        }
        None
    }

    /// What the first transaction with the given hash paid.
    pub fn get_gas_details(&self, tx_hash: B256) -> (r: Option<GasDetails>)
        ensures
            match r {
                Some(gas) => exists|i: int|
                    first_with(self.roots(), tx_hash, i) && gas == (#[trigger] self.roots()[i]).gas(),
                None => forall|i: int|
                    0 <= i < self.roots().len() ==> (#[trigger] self.roots()[i]).hash() != tx_hash,
            },
    {
        match self.get_root(tx_hash) {
            Some(root) => Some(root.get_gas_details()),
            None => None,
        }
    }

    /// For each transaction whose tree has a node that satisfies the
    /// predicate, in block order: the hash of the transaction and what its
    /// tree reports.
    pub fn inspect_all<F: Fn(&Node) -> bool>(&self, call: &F) -> (r: Vec<
        (B256, Vec<Vec<Actions>>),
    >)
        requires
            self.wf(),
            callable(*call),
        ensures
            forall|p: spec_fn(Node) -> bool|
                computes(*call, p) ==> reports_view(r@) == #[trigger] hits_upto(
                    self.roots(),
                    p,
                    self.roots().len() as int,
                ),
    {
        let mut r: Vec<(B256, Vec<Vec<Actions>>)> = Vec::new();
        let mut i: usize = 0;
        assert(reports_view(r@) =~= Seq::<(B256, Seq<Seq<ActionView>>)>::empty());
        while i < self.roots.len()
            invariant
                i <= self.roots@.len(),
                self.wf(),
                callable(*call),
                forall|p: spec_fn(Node) -> bool|
                    computes(*call, p) ==> reports_view(r@) == #[trigger] hits_upto(
                        self.roots@,
                        p,
                        i as int,
                    ),
            decreases self.roots@.len() - i,
        {
            let root = &self.roots[i];
            assert(self.roots()[i as int].wf());
            let ghost before = r@;
            let lists = root.inspect(call);
            let ghost entry = (root.hash(), lists_view(lists@));
            let found = lists.len() > 0;
            if found {
                r.push((root.tx_hash(), lists));
                assert(reports_view(r@) =~= reports_view(before).push(entry));
            }
            proof {
                assert forall|p: spec_fn(Node) -> bool| computes(*call, p) implies reports_view(r@)
                    == #[trigger] hits_upto(self.roots@, p, i + 1) by {
                    assert(reports_view(before) == hits_upto(self.roots@, p, i as int));
                    assert(entry.1 == root_hits(root.nodes(), p));
                }
            }
            i = i + 1;
        }
        r
    }

    /// Copies of the actions of every node that satisfies the predicate in
    /// the first tree with the given transaction hash; none where the block
    /// has no such transaction.
    pub fn collect<F: Fn(&Node) -> bool>(&self, tx_hash: B256, call: &F) -> (r: Vec<Actions>)
        requires
            callable(*call),
        ensures
            (forall|i: int|
                0 <= i < self.roots().len() ==> (#[trigger] self.roots()[i]).hash() != tx_hash)
                ==> r@.len() == 0,
            forall|p: spec_fn(Node) -> bool, i: int|
                computes(*call, p) && first_with(self.roots(), tx_hash, i) ==> actions_view(r@)
                    == #[trigger] picked_upto(
                    self.roots()[i].nodes(),
                    p,
                    self.roots()[i].nodes().len() as int,
                ),
    {
        match self.get_root(tx_hash) {
            Some(root) => {
                proof {
                    let k = choose|k: int|
                        first_with(self.roots(), tx_hash, k) && *root == #[trigger] self.roots()[k];
                    assert forall|i: int| first_with(self.roots(), tx_hash, i) implies i == k by {
                        if i < k {
                            assert(self.roots()[i].hash() != tx_hash);
                        } else if k < i {
                            assert(self.roots()[k].hash() != tx_hash);
                        }
                    }
                }
                root.collect(call)
            },
            None => {
                let r: Vec<Actions> = Vec::new();
                proof {
                    assert forall|i: int| first_with(self.roots(), tx_hash, i) implies false by {
                        assert(self.roots()[i].hash() != tx_hash);
                    }
                }
                r
            },
        }
    }
}

/// Whether two nodes hold the same: the same frame, the same action, the
/// same children and subtree, and the same subactions.
pub open spec fn same_node(a: Node, b: Node) -> bool {
    &&& a.trace_index == b.trace_index
    &&& a.address == b.address
    &&& a.target == b.target
    &&& a.data@ == b.data@
    &&& a.subtree_end == b.subtree_end
    &&& a.children@ == b.children@
    &&& actions_view(a.subactions@) == actions_view(b.subactions@)
}

/// Whether two arenas hold the same nodes.
pub open spec fn same_arena(a: Seq<Node>, b: Seq<Node>) -> bool {
    &&& a.len() == b.len()
    &&& forall|i: int| 0 <= i < a.len() ==> #[trigger] same_node(a[i], b[i])
}

/// Whether a predicate on nodes looks only at what a node holds.
pub open spec fn respects(p: spec_fn(Node) -> bool) -> bool {
    forall|a: Node, b: Node| #[trigger] same_node(a, b) ==> p(a) == p(b)
}

/// Whether two sequences of trees are trees of the same transactions, at
/// the same places and with the same gas, that hold the same nodes.
pub open spec fn same_roots(a: Seq<Root>, b: Seq<Root>) -> bool {
    &&& a.len() == b.len()
    &&& forall|i: int|
        0 <= i < a.len() ==> {
            &&& (#[trigger] a[i]).hash() == b[i].hash()
            &&& a[i].index() == b[i].index()
            &&& a[i].gas() == b[i].gas()
            &&& same_arena(a[i].nodes(), b[i].nodes())
        }
}

/// Two arenas that hold the same nodes have the same topmost matches.
pub proof fn lemma_same_matches(a: Seq<Node>, b: Seq<Node>, p: spec_fn(Node) -> bool, k: int)
    requires
        same_arena(a, b),
        respects(p),
        0 <= k <= a.len(),
    ensures
        matches_upto(a, p, k) == matches_upto(b, p, k),
    decreases k,
{
    if k > 0 {
        lemma_same_matches(a, b, p, k - 1);
        assert(same_node(a[k - 1], b[k - 1]));
        assert(topmost(a, p, k - 1) == topmost(b, p, k - 1)) by {
            assert forall|x: int| 0 <= x < k - 1 implies (k - 1 < end_of(a, x)) == (k - 1 < end_of(
                b,
                x,
            )) && p(#[trigger] a[x]) == p(b[x]) by {
                assert(same_node(a[x], b[x]));
            }
            if topmost(a, p, k - 1) {
                assert forall|x: int| 0 <= x < k - 1 && k - 1 < end_of(b, x) implies !p(
                    #[trigger] b[x],
                ) by {
                    assert(same_node(a[x], b[x]));
                    assert(!p(a[x]));
                }
            }
            if topmost(b, p, k - 1) {
                assert forall|x: int| 0 <= x < k - 1 && k - 1 < end_of(a, x) implies !p(
                    #[trigger] a[x],
                ) by {
                    assert(same_node(a[x], b[x]));
                    assert(!p(b[x]));
                }
            }
        }
    }
}

/// Trees that hold the same nodes report the same, transaction by
/// transaction.
pub proof fn lemma_same_hits(a: Seq<Root>, b: Seq<Root>, p: spec_fn(Node) -> bool, k: int)
    requires
        same_roots(a, b),
        respects(p),
        0 <= k <= a.len(),
    ensures
        hits_upto(a, p, k) == hits_upto(b, p, k),
    decreases k,
{
    if k > 0 {
        lemma_same_hits(a, b, p, k - 1);
        assert(a[k - 1].hash() == b[k - 1].hash());
        lemma_same_matches(a[k - 1].nodes(), b[k - 1].nodes(), p, a[k - 1].nodes().len() as int);
    }
}

} // verus!
