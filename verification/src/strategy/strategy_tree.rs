use vstd::prelude::*;

use crate::comm::micromouse_message::Command;
use crate::map::command_world_state::{FilteredCommandApplication, PathLocalOutcomeId, RejectedOutcomes};
use crate::map::check::PotentiallyEq;
use crate::map::map::{MazeMap, PartialMap};
use crate::map::map_set_op::Union;
use crate::map::world_data::{PartialWorldData, WorldData};
use crate::strategy::strategy::{
    ComputedActions, FromConfig, GoalPosition, Strategy, StrategyComputationResult, StrategyEndState,
};

verus! {

/// What went wrong in a strategy tree.
#[derive(Debug, Clone)]
pub enum StrategyTreeError {
    WhilePruning(PruneError),
    WhileExpanding(TreeExpansionError),
    WhileCreating(TreeCreationError),
    WhileFinishingCommand(FinishRootError),
    /// The map update cannot hold for the map the tree knows.
    MapConflictsWithMapUpdate,
}

/// A layer of nodes that was sent to the mouse and no longer expands.
#[derive(Debug)]
pub struct SentTreeLayer<const N: usize> {
    /// Holds no node id twice.
    nodes: Vec<(RelativeNodeId, SentCommandNode<N>)>,
    absolute_layer_id: AbsoluteLayerId,
    node_count: usize,
    eq: Command,
}

/// The layers of a tree, counted from its creation on.
#[derive(Debug, Clone, Copy, PartialEq, Eq, Structural)]
pub struct AbsoluteLayerId(pub usize);

/// The layers of a tree, counted from its current lowest layer.
#[derive(Debug, Clone, Copy, PartialEq, Eq, Structural)]
pub struct RelativeLayerId(pub usize);

/// How a strategy tree is built.
pub struct StrategyTreeConfig<const N: usize, S: Strategy<N> + Clone + FromConfig<N>> {
    pub strategy_config: S::Config,
    pub desired_depth: usize,
    pub max_nodes: usize,
}

/// A layer of a strategy tree: its nodes by id, whether all of them are expanded, and the
/// command they all agree on, if known.
pub struct StrategyTreeLayer<const N: usize, S: Strategy<N>> {
    /// Holds no node id twice.
    nodes: Vec<(RelativeNodeId, StrategyTreeNode<N, S>)>,
    absolute_layer_id: AbsoluteLayerId,
    is_fully_expanded: bool,
    eq: Option<Command>,
    node_count: usize,
    node_id_counter: RelativeNodeIdCounter,
    is_sent: bool,
}

/// A node of a strategy tree: the world and strategy state it starts from, and, once known,
/// the command applied there with the nodes its outcomes lead to.
pub struct StrategyTreeNode<const N: usize, S: Strategy<N>> {
    pub on_basis_of_world: PartialWorldData<N>,
    /// `None` for a node taken over from another tree, or for a step inside a batch.
    pub on_basis_of_state: Option<S>,
    /// `None` until the strategy decided on the node.
    pub applied_strategy: Option<Result<NodeAction<N>, StrategyEndState>>,
    pub as_branch_from_parent: Option<AbsolutePathId>,
}

/// A node whose command was sent to the mouse.
#[derive(Debug)]
pub struct SentCommandNode<const N: usize> {
    pub on_basis_of_world: PartialWorldData<N>,
    pub applied_strategy: Result<NodeAction<N>, StrategyEndState>,
    as_branch_from_parent: Option<AbsolutePathId>,
}

/// The command applied at a node, and the node each of its outcomes leads to.
#[derive(Debug)]
pub struct NodeAction<const N: usize> {
    pub command: FilteredCommandApplication<N>,
    /// Holds no outcome id twice.
    pub potential_outcomes: Vec<(PathLocalOutcomeId, AbsoluteNodeId)>,
}

/// What expanding a node did.
#[derive(Debug, Clone)]
pub enum NodeExpansionResult {
    NotExpandable,
    NotYetExpandable,
    AlreadyExpanded,
    EndState(StrategyEndState),
    Expanded(usize),
}

/// A node could not be expanded.
#[derive(Debug, Clone)]
pub struct TreeExpansionError {
    node: AbsoluteNodeId,
    expansion: NodeExpansionResult,
}

/// How far an expansion of the tree got.
#[derive(Debug)]
pub struct TreeExpansionSuccess {
    nodes: usize,
    layers: usize,
}

/// Where a new tree starts.
#[derive(Debug)]
pub enum StrategyStart<const N: usize> {
    ContinueAfterDoing { after_cmds: SentUnfinishedCommands<N>, reset_world: bool },
    /// A root node made from this world and the strategy's initial state.
    DirectlyAtState(WorldData<N>),
}

/// Why a tree could not be created.
#[derive(Debug, Clone)]
pub enum TreeCreationError {
    StrategyError(StrategyEndState),
    ExpansionError(TreeExpansionError),
    RootNotExpanded,
}

/// Why a branch could not be pruned.
#[derive(Clone, Debug)]
pub enum PruneError {
    UnknownNode(AbsoluteNodeId),
    CannotDeleteRoot(AbsoluteNodeId),
    SourceHasNoChildren(AbsoluteNodeId),
    SourceDoesNotHaveThisChild(AbsolutePathId),
}

/// A node, by layer and id within the layer.
#[derive(Clone, Copy, Debug, PartialEq, Eq, Structural)]
pub struct AbsoluteNodeId {
    layer_id: AbsoluteLayerId,
    node_id: RelativeNodeId,
}

/// An outcome of the command at a node.
#[derive(Clone, Copy, Debug, PartialEq, Eq, Structural)]
pub struct AbsolutePathId {
    pub from_node: AbsoluteNodeId,
    pub branch: PathLocalOutcomeId,
}

/// A node within its layer.
#[derive(Clone, Copy, Debug, PartialEq, Eq, PartialOrd, Ord, Hash, Structural)]
pub struct RelativeNodeId(pub usize);

/// The commands a closed tree leaves to be done.
#[derive(Debug)]
pub enum SentUnfinishedCommands<const N: usize> {
    /// The sent layers, in order; never empty.
    HasQueue { layers: Vec<SentTreeLayer<N>> },
    /// Nothing was sent, but the root marks the end of the strategy; its world is the
    /// current state.
    HasBlockingRoot { world: WorldData<N> },
}

/// Hands out the ids of the nodes of a layer, counting up.
pub struct RelativeNodeIdCounter(pub usize);

/// Why the root of a tree could not be declared finished.
#[derive(Debug, Clone)]
pub enum FinishRootError {
    NoSuccessor,
    MultipleSuccessors(Vec<(PathLocalOutcomeId, AbsoluteNodeId)>),
    RootNotExpanded,
    ImpossibleRootAction(StrategyEndState),
    SuccessorNotExpandable,
    SuccessorNotYetExpandable,
    /// The successor marks the end of the strategy.
    SuccessorIsEnd(StrategyEndState),
}

/// Why a layer could not be turned into a sent layer.
#[derive(Debug, Copy, Clone, PartialEq, Eq, Structural)]
pub enum LayerReductionError {
    NodesNotExpanded,
    LayerNotExpanded,
    LayerNotEq,
    LayerNotSent,
}

impl AbsoluteNodeId {
    /// The layer of the node.
    pub closed spec fn layer_spec(&self) -> AbsoluteLayerId {
        self.layer_id
    }

    /// The id of the node within its layer.
    pub closed spec fn node_spec(&self) -> RelativeNodeId {
        self.node_id
    }

    /// The layer of the node.
    pub fn layer_id(&self) -> (r: &AbsoluteLayerId)
        ensures
            *r == self.layer_spec(),
    {
        &self.layer_id
    }

    /// The id of the node within its layer.
    pub fn node_id(&self) -> (r: &RelativeNodeId)
        ensures
            *r == self.node_spec(),
    {
        &self.node_id
    }
}

impl RelativeNodeIdCounter {
    /// The next id; counts up.
    pub fn next(&mut self) -> (r: RelativeNodeId)
        requires
            old(self).0 < usize::MAX,
        ensures
            r == RelativeNodeId(old(self).0),
            final(self).0 == old(self).0 + 1,
    {
        let id = RelativeNodeId(self.0);
        self.0 = self.0 + 1;
        id
    }
}

impl Default for RelativeNodeIdCounter {
    fn default() -> (r: Self)
        ensures
            r.0 == 0,
    {
        RelativeNodeIdCounter(0)
    }
}

impl vstd::std_specs::ops::SubSpecImpl for AbsoluteLayerId {
    open spec fn obeys_sub_spec() -> bool {
        true
    }

    open spec fn sub_req(self, rhs: AbsoluteLayerId) -> bool {
        self.0 >= rhs.0
    }

    open spec fn sub_spec(self, rhs: AbsoluteLayerId) -> RelativeLayerId {
        RelativeLayerId((self.0 - rhs.0) as usize)
    }
}

impl std::ops::Sub for AbsoluteLayerId {
    type Output = RelativeLayerId;

    fn sub(self, rhs: Self) -> (r: RelativeLayerId) {
        RelativeLayerId(self.0 - rhs.0)
    }
}

impl vstd::std_specs::ops::AddSpecImpl<RelativeLayerId> for AbsoluteLayerId {
    open spec fn obeys_add_spec() -> bool {
        true
    }

    open spec fn add_req(self, rhs: RelativeLayerId) -> bool {
        self.0 + rhs.0 <= usize::MAX
    }

    open spec fn add_spec(self, rhs: RelativeLayerId) -> AbsoluteLayerId {
        AbsoluteLayerId((self.0 + rhs.0) as usize)
    }
}

impl std::ops::Add<RelativeLayerId> for AbsoluteLayerId {
    type Output = AbsoluteLayerId;

    fn add(self, rhs: RelativeLayerId) -> (r: AbsoluteLayerId) {
        AbsoluteLayerId(self.0 + rhs.0)
    }
}

/// The two commands are the same.
pub open spec fn same_command(a: Command, b: Command) -> bool {
    a.ty == b.ty && a.interrupts@ == b.interrupts@
}

/// No id occurs twice among the entries.
pub open spec fn node_ids_unique<V>(s: Seq<(RelativeNodeId, V)>) -> bool {
    forall|i: int, j: int| 0 <= i < j < s.len() ==> s[i].0 != s[j].0
}

/// Some entry has id `k`.
pub open spec fn has_node<V>(s: Seq<(RelativeNodeId, V)>, k: RelativeNodeId) -> bool {
    exists|i: int| 0 <= i < s.len() && s[i].0 == k
}

/// The index of the entry with id `k` (meaningful where there is one).
pub open spec fn node_index<V>(s: Seq<(RelativeNodeId, V)>, k: RelativeNodeId) -> int {
    choose|i: int| 0 <= i < s.len() && s[i].0 == k
}

/// The command the node applies, if the strategy decided on one there.
pub open spec fn node_command<const N: usize, S: Strategy<N>>(n: StrategyTreeNode<N, S>) -> Option<Command> {
    match n.applied_strategy {
        Some(Ok(a)) => Some(a.command.command_spec()),
        _ => None,
    }
}

/// Every outcome of the command decided on at `n`, if any, leads to a node of layer `next`.
pub open spec fn node_children_in<const N: usize, S: Strategy<N>>(n: StrategyTreeNode<N, S>, next: AbsoluteLayerId) -> bool {
    match n.applied_strategy {
        Some(Ok(a)) => forall|k: int| 0 <= k < a.potential_outcomes@.len() ==> (#[trigger] a.potential_outcomes@[k]).1.layer_spec() == next,
        _ => true,
    }
}

/// The outcomes of the command decided on at `n`, each with the node it leads to (none if no
/// command was decided on there).
pub open spec fn node_outcomes<const N: usize, S: Strategy<N>>(n: StrategyTreeNode<N, S>) -> Seq<(PathLocalOutcomeId, AbsoluteNodeId)> {
    match n.applied_strategy {
        Some(Ok(a)) => a.potential_outcomes@,
        _ => Seq::empty(),
    }
}

/// Outcome `b` among the outcomes `s` leads to node `c`: the first entry for `b` names `c`.
pub open spec fn leads_to(s: Seq<(PathLocalOutcomeId, AbsoluteNodeId)>, b: PathLocalOutcomeId, c: AbsoluteNodeId) -> bool {
    exists|i: int| #![trigger s[i]] 0 <= i < s.len() && s[i] == (b, c) && forall|j: int| 0 <= j < i ==> (#[trigger] s[j]).0 != b
}

/// An outcome leads to one node at most.
proof fn lemma_leads_to_unique(s: Seq<(PathLocalOutcomeId, AbsoluteNodeId)>, b: PathLocalOutcomeId, c1: AbsoluteNodeId, c2: AbsoluteNodeId)
    requires
        leads_to(s, b, c1),
        leads_to(s, b, c2),
    ensures
        c1 == c2,
{
    let i1 = choose|i: int| #![trigger s[i]] 0 <= i < s.len() && s[i] == (b, c1) && forall|j: int| 0 <= j < i ==> (#[trigger] s[j]).0 != b;
    let i2 = choose|i: int| #![trigger s[i]] 0 <= i < s.len() && s[i] == (b, c2) && forall|j: int| 0 <= j < i ==> (#[trigger] s[j]).0 != b;
    if i1 < i2 {
        assert(s[i1].0 != b);
    } else if i2 < i1 {
        assert(s[i2].0 != b);
    }
}

/// Removing an entry for `b` keeps where every other outcome leads.
proof fn lemma_leads_to_remove(s: Seq<(PathLocalOutcomeId, AbsoluteNodeId)>, p: int, b: PathLocalOutcomeId, b2: PathLocalOutcomeId, c2: AbsoluteNodeId)
    requires
        0 <= p < s.len(),
        s[p].0 == b,
        b2 != b,
        leads_to(s, b2, c2),
    ensures
        leads_to(s.remove(p), b2, c2),
{
    let t = s.remove(p);
    let i = choose|i: int| #![trigger s[i]] 0 <= i < s.len() && s[i] == (b2, c2) && forall|j: int| 0 <= j < i ==> (#[trigger] s[j]).0 != b2;
    if i < p {
        assert(t[i] == s[i]);
        assert forall|j: int| 0 <= j < i implies (#[trigger] t[j]).0 != b2 by {
            assert(t[j] == s[j]);
        }
    } else {
        assert(i != p);
        assert(t[i - 1] == s[i]);
        assert forall|j: int| 0 <= j < i - 1 implies (#[trigger] t[j]).0 != b2 by {
            if j < p {
                assert(t[j] == s[j]);
            } else {
                assert(t[j] == s[j + 1]);
            }
        }
    }
}

/// Layers `ls`, the first with id `first`, hold node `x`.
pub closed spec fn layers_have<const N: usize, S: Strategy<N>>(ls: Seq<StrategyTreeLayer<N, S>>, first: AbsoluteLayerId, x: AbsoluteNodeId) -> bool {
    let k = x.layer_id.0 - first.0;
    0 <= k < ls.len() && has_node(ls[k].nodes@, x.node_id)
}

/// Node `x` of layers `ls`, the first with id `first` (meaningful where they hold it).
pub closed spec fn layers_node<const N: usize, S: Strategy<N>>(ls: Seq<StrategyTreeLayer<N, S>>, first: AbsoluteLayerId, x: AbsoluteNodeId) -> StrategyTreeNode<N, S> {
    let k = x.layer_id.0 - first.0;
    ls[k].nodes@[node_index(ls[k].nodes@, x.node_id)].1
}

/// The node `e` of the layer at position `k` follows an outcome of a node of the layer
/// before, and that outcome leads to it.
spec fn node_linked<const N: usize, S: Strategy<N>>(
    ls: Seq<StrategyTreeLayer<N, S>>,
    first: AbsoluteLayerId,
    k: int,
    e: (RelativeNodeId, StrategyTreeNode<N, S>),
) -> bool {
    e.1.as_branch_from_parent matches Some(b) && {
        &&& b.from_node.layer_id.0 - first.0 == k - 1
        &&& layers_have(ls, first, b.from_node)
        &&& leads_to(
            node_outcomes(layers_node(ls, first, b.from_node)),
            b.branch,
            AbsoluteNodeId { layer_id: ls[k].absolute_layer_id, node_id: e.0 },
        )
    }
}

/// Every node after the first layer of `ls` follows an outcome of a node of the layer before,
/// and that outcome leads to it: the links between parents and children agree.
pub closed spec fn layers_linked<const N: usize, S: Strategy<N>>(ls: Seq<StrategyTreeLayer<N, S>>, first: AbsoluteLayerId) -> bool {
    forall|k: int, i: int| 1 <= k < ls.len() && 0 <= i < ls[k].nodes@.len() ==> #[trigger] node_linked(ls, first, k, ls[k].nodes@[i])
}

/// Every node of `a` has its id in the same layer of `o`.
pub closed spec fn ids_within<const N: usize, S: Strategy<N>>(a: Seq<StrategyTreeLayer<N, S>>, o: Seq<StrategyTreeLayer<N, S>>) -> bool {
    forall|k: int, i: int| 0 <= k < a.len() && k < o.len() && 0 <= i < a[k].nodes@.len() ==> #[trigger] has_node(o[k].nodes@, a[k].nodes@[i].0)
}

/// In a sequence without repeated ids, the entry with an id other than that of position `q`
/// stays the same entry once `q` is removed.
proof fn lemma_node_index_remove<V>(s: Seq<(RelativeNodeId, V)>, q: int, id: RelativeNodeId)
    requires
        node_ids_unique(s),
        0 <= q < s.len(),
        s[q].0 != id,
    ensures
        has_node(s.remove(q), id) == has_node(s, id),
        has_node(s, id) ==> s.remove(q)[node_index(s.remove(q), id)] == s[node_index(s, id)],
{
    let t = s.remove(q);
    if has_node(s, id) {
        let i = node_index(s, id);
        let j = if i < q { i } else { i - 1 };
        assert(t[j] == s[i]);
        assert(has_node(t, id));
        let j2 = node_index(t, id);
        let i2 = if j2 < q { j2 } else { j2 + 1 };
        assert(t[j2] == s[i2]);
        assert(i2 == i);
    }
    if has_node(t, id) {
        let j = node_index(t, id);
        let i = if j < q { j } else { j + 1 };
        assert(t[j] == s[i]);
    }
}

/// In a sequence without repeated ids, the id at position `q` is gone once `q` is removed.
proof fn lemma_removed_gone<V>(s: Seq<(RelativeNodeId, V)>, q: int)
    requires
        node_ids_unique(s),
        0 <= q < s.len(),
    ensures
        !has_node(s.remove(q), s[q].0),
{
    let t = s.remove(q);
    if has_node(t, s[q].0) {
        let j = node_index(t, s[q].0);
        let i = if j < q { j } else { j + 1 };
        assert(t[j] == s[i]);
    }
}

/// Every node after the first layer of `ls` is linked to its parent (see `layers_linked`) or
/// is among `td`.
spec fn pending_links<const N: usize, S: Strategy<N>>(ls: Seq<StrategyTreeLayer<N, S>>, first: AbsoluteLayerId, td: Seq<AbsoluteNodeId>) -> bool {
    forall|k: int, i: int|
        1 <= k < ls.len() && 0 <= i < ls[k].nodes@.len() ==> node_linked(ls, first, k, #[trigger] ls[k].nodes@[i]) || td.contains(
            AbsoluteNodeId { layer_id: ls[k].absolute_layer_id, node_id: ls[k].nodes@[i].0 },
        )
}

/// The layers are each well formed and numbered consecutively from `first` on.
spec fn layers_numbered<const N: usize, S: Strategy<N>>(ls: Seq<StrategyTreeLayer<N, S>>, first: AbsoluteLayerId) -> bool {
    forall|m: int| 0 <= m < ls.len() ==> (#[trigger] ls[m]).wf() && ls[m].absolute_layer_id.0 == first.0 + m
}

/// Deleting node `z` (whose outcomes lead to `ch`) from `before` gives `after`: every node of
/// `after` is one of `before`, and a node whose link went with `z` is among `ch`.
proof fn lemma_delete_pending<const N: usize, S: Strategy<N>>(
    before: Seq<StrategyTreeLayer<N, S>>,
    after: Seq<StrategyTreeLayer<N, S>>,
    first: AbsoluteLayerId,
    z: AbsoluteNodeId,
    td: Seq<AbsoluteNodeId>,
    ch: Seq<AbsoluteNodeId>,
    o: Seq<StrategyTreeLayer<N, S>>,
    linked: bool,
)
    requires
        before.len() == after.len(),
        layers_numbered(before, first),
        layers_have(before, first, z),
        after[z.layer_id.0 - first.0].nodes@ == before[z.layer_id.0 - first.0].nodes@.remove(
            node_index(before[z.layer_id.0 - first.0].nodes@, z.node_id),
        ),
        after[z.layer_id.0 - first.0].absolute_layer_id == before[z.layer_id.0 - first.0].absolute_layer_id,
        forall|m: int| 0 <= m < after.len() && m != z.layer_id.0 - first.0 ==> #[trigger] after[m] == before[m],
        ch == node_outcomes(layers_node(before, first, z)).map_values(|p: (PathLocalOutcomeId, AbsoluteNodeId)| p.1),
        linked ==> pending_links(before, first, td.push(z)),
        ids_within(before, o),
    ensures
        linked ==> pending_links(after, first, td + ch),
        ids_within(after, o),
        !layers_have(after, first, z),
        forall|x: AbsoluteNodeId| x != z ==> layers_have(after, first, x) == layers_have(before, first, x),
        forall|x: AbsoluteNodeId|
            x != z && #[trigger] layers_have(after, first, x) ==> layers_node(after, first, x) == layers_node(before, first, x),
        layers_linked_down(before, first) ==> layers_linked_down(after, first),
{
    let kz = z.layer_id.0 - first.0;
    let sz = before[kz].nodes@;
    let q = node_index(sz, z.node_id);
    assert(sz[q].0 == z.node_id);
    lemma_removed_gone(sz, q);
    assert forall|x: AbsoluteNodeId| x != z implies layers_have(after, first, x) == layers_have(before, first, x) && (layers_have(
        after,
        first,
        x,
    ) ==> layers_node(after, first, x) == layers_node(before, first, x)) by {
        let kx = x.layer_id.0 - first.0;
        if 0 <= kx < after.len() {
            if kx == kz {
                assert(x.node_id != z.node_id);
                lemma_node_index_remove(sz, q, x.node_id);
            } else {
                assert(after[kx] == before[kx]);
            }
        }
    }
    if layers_linked_down(before, first) {
        assert forall|k: int, i: int, w: int|
            0 <= k < after.len() && 0 <= i < after[k].nodes@.len() && 0 <= w < node_outcomes(after[k].nodes@[i].1).len() && layers_have(
                after,
                first,
                (#[trigger] node_outcomes(after[k].nodes@[i].1)[w]).1,
            ) implies layers_node(after, first, node_outcomes(after[k].nodes@[i].1)[w].1).as_branch_from_parent == Some(
            AbsolutePathId {
                from_node: AbsoluteNodeId { layer_id: after[k].absolute_layer_id, node_id: after[k].nodes@[i].0 },
                branch: node_outcomes(after[k].nodes@[i].1)[w].0,
            },
        ) by {
            let i2 = if k == kz && i >= q { i + 1 } else { i };
            assert(after[k].nodes@[i] == before[k].nodes@[i2] && after[k].absolute_layer_id == before[k].absolute_layer_id) by {
                if k != kz {
                    assert(after[k] == before[k]);
                }
            }
            let c = node_outcomes(after[k].nodes@[i].1)[w].1;
            assert(c != z);
            assert(node_outcomes(before[k].nodes@[i2].1)[w].1 == c);
            assert(layers_have(before, first, c));
        }
    }
    assert forall|k: int, i: int| 0 <= k < after.len() && k < o.len() && 0 <= i < after[k].nodes@.len() implies #[trigger] has_node(
        o[k].nodes@,
        after[k].nodes@[i].0,
    ) by {
        if k == kz {
            let i2 = if i < q { i } else { i + 1 };
            assert(after[k].nodes@[i] == before[k].nodes@[i2]);
            assert(has_node(o[k].nodes@, before[k].nodes@[i2].0));
        } else {
            assert(after[k] == before[k]);
            assert(has_node(o[k].nodes@, before[k].nodes@[i].0));
        }
    }
    let tc = td + ch;
    if linked {
        assert forall|k: int, i: int| 1 <= k < after.len() && 0 <= i < after[k].nodes@.len() implies node_linked(
            after,
            first,
            k,
            #[trigger] after[k].nodes@[i],
        ) || tc.contains(AbsoluteNodeId { layer_id: after[k].absolute_layer_id, node_id: after[k].nodes@[i].0 }) by {
            let e = after[k].nodes@[i];
            let i2 = if k == kz && i >= q { i + 1 } else { i };
            assert(e == before[k].nodes@[i2]) by {
                if k != kz {
                    assert(after[k] == before[k]);
                }
            }
            assert(after[k].absolute_layer_id == before[k].absolute_layer_id) by {
                if k != kz {
                    assert(after[k] == before[k]);
                }
            }
            let ae = AbsoluteNodeId { layer_id: after[k].absolute_layer_id, node_id: e.0 };
            assert(node_linked(before, first, k, before[k].nodes@[i2]) || td.push(z).contains(ae));
            if td.push(z).contains(ae) {
                if ae == z {
                    assert(before[k].absolute_layer_id.0 == first.0 + k);
                    assert(k == kz);
                    assert(has_node(after[kz].nodes@, z.node_id));
                    assert(false);
                } else {
                    let w = choose|w: int| 0 <= w < td.push(z).len() && td.push(z)[w] == ae;
                    assert(w < td.len());
                    assert(tc[w] == ae);
                }
            } else {
                let b = e.1.as_branch_from_parent.unwrap();
                let pz = b.from_node;
                let sout = node_outcomes(layers_node(before, first, pz));
                assert(leads_to(sout, b.branch, ae));
                if pz == z {
                    let w = choose|w: int| #![trigger sout[w]] 0 <= w < sout.len() && sout[w] == (b.branch, ae) && forall|j: int|
                        0 <= j < w ==> (#[trigger] sout[j]).0 != b.branch;
                    assert(ch[w] == ae);
                    assert(tc[td.len() + w] == ae);
                } else {
                    let kp = pz.layer_id.0 - first.0;
                    assert(layers_have(after, first, pz));
                    if kp == kz {
                        assert(pz.node_id != z.node_id);
                        lemma_node_index_remove(sz, q, pz.node_id);
                    } else {
                        assert(after[kp] == before[kp]);
                    }
                    assert(layers_node(after, first, pz) == layers_node(before, first, pz));
                    assert(node_linked(after, first, k, e));
                }
            }
        }
    }
}

/// Two sequences with the same ids at the same positions find an id at the same position.
proof fn lemma_same_ids_index<V>(s: Seq<(RelativeNodeId, V)>, t: Seq<(RelativeNodeId, V)>, id: RelativeNodeId)
    requires
        s.len() == t.len(),
        forall|j: int| 0 <= j < s.len() ==> (#[trigger] s[j]).0 == t[j].0,
        node_ids_unique(s),
    ensures
        has_node(s, id) == has_node(t, id),
        has_node(s, id) ==> node_index(s, id) == node_index(t, id),
{
    if has_node(s, id) {
        let i = node_index(s, id);
        assert(t[i].0 == id);
        let j = node_index(t, id);
        assert(s[j].0 == id);
    }
    if has_node(t, id) {
        let j = node_index(t, id);
        assert(s[j].0 == id);
    }
}

/// Taking the outcome `bb` (which leads to `x`) from node `src` of linked layers `pre` gives
/// `s0`, where every node after the first layer is still linked or is `x`.
proof fn lemma_take_pending<const N: usize, S: Strategy<N>>(
    pre: Seq<StrategyTreeLayer<N, S>>,
    s0: Seq<StrategyTreeLayer<N, S>>,
    first: AbsoluteLayerId,
    src: AbsoluteNodeId,
    bb: PathLocalOutcomeId,
    x: AbsoluteNodeId,
)
    requires
        pre.len() == s0.len(),
        layers_numbered(pre, first),
        layers_numbered(s0, first),
        layers_linked(pre, first),
        layers_have(pre, first, src),
        forall|m: int| 0 <= m < s0.len() && m != src.layer_id.0 - first.0 ==> #[trigger] s0[m] == pre[m],
        s0[src.layer_id.0 - first.0].nodes@.len() == pre[src.layer_id.0 - first.0].nodes@.len(),
        forall|j: int|
            0 <= j < s0[src.layer_id.0 - first.0].nodes@.len() ==> (#[trigger] s0[src.layer_id.0 - first.0].nodes@[j]).0
                == pre[src.layer_id.0 - first.0].nodes@[j].0,
        forall|j: int|
            0 <= j < s0[src.layer_id.0 - first.0].nodes@.len() && j != node_index(pre[src.layer_id.0 - first.0].nodes@, src.node_id)
                ==> #[trigger] s0[src.layer_id.0 - first.0].nodes@[j] == pre[src.layer_id.0 - first.0].nodes@[j],
        s0[src.layer_id.0 - first.0].nodes@[node_index(pre[src.layer_id.0 - first.0].nodes@, src.node_id)].1.as_branch_from_parent
            == layers_node(pre, first, src).as_branch_from_parent,
        forall|b2: PathLocalOutcomeId, c2: AbsoluteNodeId|
            b2 != bb && leads_to(node_outcomes(layers_node(pre, first, src)), b2, c2) ==> #[trigger] leads_to(
                node_outcomes(s0[src.layer_id.0 - first.0].nodes@[node_index(pre[src.layer_id.0 - first.0].nodes@, src.node_id)].1),
                b2,
                c2,
            ),
        leads_to(node_outcomes(layers_node(pre, first, src)), bb, x),
    ensures
        pending_links(s0, first, seq![x]),
{
    let li = src.layer_id.0 - first.0;
    let isrc = node_index(pre[li].nodes@, src.node_id);
    assert forall|k: int, i: int| 1 <= k < s0.len() && 0 <= i < s0[k].nodes@.len() implies node_linked(
        s0,
        first,
        k,
        #[trigger] s0[k].nodes@[i],
    ) || seq![x].contains(AbsoluteNodeId { layer_id: s0[k].absolute_layer_id, node_id: s0[k].nodes@[i].0 }) by {
        let e = s0[k].nodes@[i];
        let pe = pre[k].nodes@[i];
        assert(e.0 == pe.0 && e.1.as_branch_from_parent == pe.1.as_branch_from_parent) by {
            if k != li {
                assert(s0[k] == pre[k]);
            }
        }
        assert(s0[k].absolute_layer_id == pre[k].absolute_layer_id);
        assert(node_linked(pre, first, k, pe));
        let ae = AbsoluteNodeId { layer_id: s0[k].absolute_layer_id, node_id: e.0 };
        let b = pe.1.as_branch_from_parent.unwrap();
        let pz = b.from_node;
        let kp = pz.layer_id.0 - first.0;
        if kp != li {
            assert(s0[kp] == pre[kp]);
            assert(node_linked(s0, first, k, e));
        } else {
            lemma_same_ids_index(pre[li].nodes@, s0[li].nodes@, pz.node_id);
            let idx = node_index(pre[li].nodes@, pz.node_id);
            if idx != isrc {
                assert(s0[li].nodes@[idx] == pre[li].nodes@[idx]);
                assert(node_linked(s0, first, k, e));
            } else {
                assert(layers_node(pre, first, pz) == layers_node(pre, first, src));
                if b.branch != bb {
                    assert(leads_to(node_outcomes(layers_node(pre, first, src)), b.branch, ae));
                    assert(node_linked(s0, first, k, e));
                } else {
                    lemma_leads_to_unique(node_outcomes(layers_node(pre, first, src)), bb, ae, x);
                    assert(seq![x][0] == ae);
                }
            }
        }
    }
}

/// Every node of `a` from the layer at position `from` on that has the id of a node of the
/// same layer of `o` stands for a node of `o` whose map's walls could be those of `m`.
pub open spec fn kept_nodes_fit<const N: usize, S: Strategy<N>>(
    a: Seq<StrategyTreeLayer<N, S>>,
    o: Seq<StrategyTreeLayer<N, S>>,
    m: MazeMap<N>,
    from: int,
) -> bool {
    forall|k: int, i: int|
        from <= k < a.len() && k < o.len() && 0 <= i < a[k].nodes_spec().len() && has_node(
            o[k].nodes_spec(),
            (#[trigger] a[k].nodes_spec()[i]).0,
        ) ==> o[k].nodes_spec()[node_index(o[k].nodes_spec(), a[k].nodes_spec()[i].0)].1.on_basis_of_world.0.map.walls_potentially_eq(&m)
}

/// The layers of `a` have the node-id counters and the sent marks of those of `o`.
pub closed spec fn counters_kept<const N: usize, S: Strategy<N>>(a: Seq<StrategyTreeLayer<N, S>>, o: Seq<StrategyTreeLayer<N, S>>) -> bool {
    &&& a.len() == o.len()
    &&& forall|k: int| 0 <= k < a.len() ==> (#[trigger] a[k]).node_id_counter == o[k].node_id_counter && a[k].is_sent == o[k].is_sent
}

/// From `o` to `a` nodes were only added: every node of `a` in a layer of `o` is a node of
/// that layer or got a new id from its counter, and the counters only count up.
pub closed spec fn layers_grow<const N: usize, S: Strategy<N>>(o: Seq<StrategyTreeLayer<N, S>>, a: Seq<StrategyTreeLayer<N, S>>) -> bool {
    &&& a.len() >= o.len()
    &&& forall|k: int|
        0 <= k < o.len() ==> (#[trigger] a[k]).node_id_counter.0 >= o[k].node_id_counter.0 && (o[k].is_sent ==> a[k].is_sent)
    &&& forall|k: int, i: int|
        0 <= k < o.len() && 0 <= i < a[k].nodes@.len() ==> has_node(o[k].nodes@, (#[trigger] a[k].nodes@[i]).0) || (!o[k].is_sent
            && o[k].node_id_counter.0 < usize::MAX && a[k].nodes@[i].0.0 >= o[k].node_id_counter.0)
    &&& forall|k: int, i: int| 0 <= k < o.len() && 0 <= i < o[k].nodes@.len() ==> has_node(a[k].nodes@, (#[trigger] o[k].nodes@[i]).0)
}

proof fn lemma_grow_trans<const N: usize, S: Strategy<N>>(
    o: Seq<StrategyTreeLayer<N, S>>,
    b: Seq<StrategyTreeLayer<N, S>>,
    a: Seq<StrategyTreeLayer<N, S>>,
)
    requires
        layers_grow(o, b),
        layers_grow(b, a),
    ensures
        layers_grow(o, a),
{
    assert forall|k: int| 0 <= k < o.len() implies (#[trigger] a[k]).node_id_counter.0 >= o[k].node_id_counter.0 && (o[k].is_sent
        ==> a[k].is_sent) by {
        assert(b[k].node_id_counter.0 >= o[k].node_id_counter.0);
    }
    assert forall|k: int, i: int| 0 <= k < o.len() && 0 <= i < a[k].nodes@.len() implies has_node(
        o[k].nodes@,
        (#[trigger] a[k].nodes@[i]).0,
    ) || (!o[k].is_sent && o[k].node_id_counter.0 < usize::MAX && a[k].nodes@[i].0.0 >= o[k].node_id_counter.0) by {
        assert(b[k].node_id_counter.0 >= o[k].node_id_counter.0 && (o[k].is_sent ==> b[k].is_sent));
        let x = a[k].nodes@[i].0;
        if has_node(b[k].nodes@, x) {
            let j = node_index(b[k].nodes@, x);
            assert(b[k].nodes@[j].0 == x);
            assert(has_node(o[k].nodes@, b[k].nodes@[j].0) || (!o[k].is_sent && o[k].node_id_counter.0 < usize::MAX
                && b[k].nodes@[j].0.0 >= o[k].node_id_counter.0));
        }
    }
    assert forall|k: int, i: int| 0 <= k < o.len() && 0 <= i < o[k].nodes@.len() implies has_node(a[k].nodes@, (#[trigger] o[k].nodes@[i]).0) by {
        assert(has_node(b[k].nodes@, o[k].nodes@[i].0));
        let j = node_index(b[k].nodes@, o[k].nodes@[i].0);
        assert(has_node(a[k].nodes@, b[k].nodes@[j].0));
    }
}

proof fn lemma_grow_refl<const N: usize, S: Strategy<N>>(o: Seq<StrategyTreeLayer<N, S>>)
    ensures
        layers_grow(o, o),
{
    assert forall|k: int, i: int| 0 <= k < o.len() && 0 <= i < o[k].nodes@.len() implies has_node(o[k].nodes@, (#[trigger] o[k].nodes@[i]).0)
        || (!o[k].is_sent && o[k].node_id_counter.0 < usize::MAX && o[k].nodes@[i].0.0 >= o[k].node_id_counter.0) by {}
}

proof fn lemma_grow_prefix<const N: usize, S: Strategy<N>>(o: Seq<StrategyTreeLayer<N, S>>, a: Seq<StrategyTreeLayer<N, S>>)
    requires
        a.len() >= o.len(),
        forall|k: int| 0 <= k < o.len() ==> #[trigger] a[k] == o[k],
    ensures
        layers_grow(o, a),
{
    assert forall|k: int, i: int| 0 <= k < o.len() && 0 <= i < a[k].nodes@.len() implies has_node(o[k].nodes@, (#[trigger] a[k].nodes@[i]).0)
        || (!o[k].is_sent && o[k].node_id_counter.0 < usize::MAX && a[k].nodes@[i].0.0 >= o[k].node_id_counter.0) by {
        assert(a[k] == o[k]);
    }
}

proof fn lemma_grow_from_within<const N: usize, S: Strategy<N>>(o: Seq<StrategyTreeLayer<N, S>>, a: Seq<StrategyTreeLayer<N, S>>)
    requires
        ids_within(a, o),
        counters_kept(a, o),
        forall|k: int, i: int| 0 <= k < o.len() && 0 <= i < o[k].nodes@.len() ==> has_node(a[k].nodes@, (#[trigger] o[k].nodes@[i]).0),
    ensures
        layers_grow(o, a),
{
    assert forall|k: int, i: int| 0 <= k < o.len() && 0 <= i < a[k].nodes@.len() implies has_node(
        o[k].nodes@,
        (#[trigger] a[k].nodes@[i]).0,
    ) || (!o[k].is_sent && o[k].node_id_counter.0 < usize::MAX && a[k].nodes@[i].0.0 >= o[k].node_id_counter.0) by {
        assert(has_node(o[k].nodes@, a[k].nodes@[i].0));
    }
    assert forall|k: int| 0 <= k < o.len() implies (#[trigger] a[k]).node_id_counter.0 >= o[k].node_id_counter.0 && (o[k].is_sent
        ==> a[k].is_sent) by {
        assert(a[k].node_id_counter == o[k].node_id_counter);
    }
}

proof fn lemma_ids_within_trans<const N: usize, S: Strategy<N>>(
    a: Seq<StrategyTreeLayer<N, S>>,
    b: Seq<StrategyTreeLayer<N, S>>,
    o: Seq<StrategyTreeLayer<N, S>>,
)
    requires
        ids_within(a, b),
        ids_within(b, o),
        a.len() == b.len(),
    ensures
        ids_within(a, o),
{
    assert forall|k: int, i: int| 0 <= k < a.len() && k < o.len() && 0 <= i < a[k].nodes@.len() implies #[trigger] has_node(
        o[k].nodes@,
        a[k].nodes@[i].0,
    ) by {
        assert(has_node(b[k].nodes@, a[k].nodes@[i].0));
        let j = node_index(b[k].nodes@, a[k].nodes@[i].0);
        assert(has_node(o[k].nodes@, b[k].nodes@[j].0));
    }
}

proof fn lemma_ids_within_have<const N: usize, S: Strategy<N>>(
    a: Seq<StrategyTreeLayer<N, S>>,
    o: Seq<StrategyTreeLayer<N, S>>,
    first: AbsoluteLayerId,
    y: AbsoluteNodeId,
)
    requires
        ids_within(a, o),
        a.len() == o.len(),
        layers_have(a, first, y),
    ensures
        layers_have(o, first, y),
{
    let k = y.layer_id.0 - first.0;
    let i = node_index(a[k].nodes@, y.node_id);
    assert(has_node(o[k].nodes@, a[k].nodes@[i].0));
}

/// Equal layers but for the worlds of their nodes.
spec fn same_shape<const N: usize, S: Strategy<N>>(a: Seq<StrategyTreeLayer<N, S>>, o: Seq<StrategyTreeLayer<N, S>>) -> bool {
    &&& a.len() == o.len()
    &&& forall|k: int|
        0 <= k < a.len() ==> {
            &&& (#[trigger] a[k]).nodes@.len() == o[k].nodes@.len()
            &&& a[k].absolute_layer_id == o[k].absolute_layer_id
            &&& a[k].node_id_counter == o[k].node_id_counter
            &&& a[k].is_sent == o[k].is_sent
            &&& forall|i: int| 0 <= i < a[k].nodes@.len() ==> same_node_shape(#[trigger] a[k].nodes@[i], o[k].nodes@[i])
        }
}

/// Equal nodes but for their worlds.
spec fn same_node_shape<const N: usize, S: Strategy<N>>(e: (RelativeNodeId, StrategyTreeNode<N, S>), f: (RelativeNodeId, StrategyTreeNode<N, S>)) -> bool {
    &&& e.0 == f.0
    &&& e.1.as_branch_from_parent == f.1.as_branch_from_parent
    &&& e.1.applied_strategy == f.1.applied_strategy
}

proof fn lemma_same_shape<const N: usize, S: Strategy<N>>(a: Seq<StrategyTreeLayer<N, S>>, o: Seq<StrategyTreeLayer<N, S>>, first: AbsoluteLayerId)
    requires
        same_shape(a, o),
        layers_numbered(o, first),
    ensures
        ids_within(a, o),
        counters_kept(a, o),
        layers_linked(o, first) ==> layers_linked(a, first),
        forall|y: AbsoluteNodeId|
            #[trigger] layers_have(a, first, y) == layers_have(o, first, y) && (layers_have(a, first, y) ==> layers_node(
                a,
                first,
                y,
            ).as_branch_from_parent == layers_node(o, first, y).as_branch_from_parent),
        layers_linked_down(o, first) ==> layers_linked_down(a, first),
{
    assert forall|y: AbsoluteNodeId|
        #[trigger] layers_have(a, first, y) == layers_have(o, first, y) && (layers_have(a, first, y) ==> layers_node(
            a,
            first,
            y,
        ).as_branch_from_parent == layers_node(o, first, y).as_branch_from_parent) by {
        let ky = y.layer_id.0 - first.0;
        if 0 <= ky < a.len() {
            assert forall|j: int| 0 <= j < o[ky].nodes@.len() implies (#[trigger] o[ky].nodes@[j]).0 == a[ky].nodes@[j].0 by {
                assert(same_node_shape(a[ky].nodes@[j], o[ky].nodes@[j]));
            }
            lemma_same_ids_index(o[ky].nodes@, a[ky].nodes@, y.node_id);
            if has_node(o[ky].nodes@, y.node_id) {
                let iy = node_index(o[ky].nodes@, y.node_id);
                assert(same_node_shape(a[ky].nodes@[iy], o[ky].nodes@[iy]));
            }
        }
    }
    if layers_linked_down(o, first) {
        assert forall|k: int, i: int, w: int|
            0 <= k < a.len() && 0 <= i < a[k].nodes@.len() && 0 <= w < node_outcomes(a[k].nodes@[i].1).len() && layers_have(
                a,
                first,
                (#[trigger] node_outcomes(a[k].nodes@[i].1)[w]).1,
            ) implies layers_node(a, first, node_outcomes(a[k].nodes@[i].1)[w].1).as_branch_from_parent == Some(
            AbsolutePathId {
                from_node: AbsoluteNodeId { layer_id: a[k].absolute_layer_id, node_id: a[k].nodes@[i].0 },
                branch: node_outcomes(a[k].nodes@[i].1)[w].0,
            },
        ) by {
            assert(same_node_shape(a[k].nodes@[i], o[k].nodes@[i]));
            assert(node_outcomes(a[k].nodes@[i].1) == node_outcomes(o[k].nodes@[i].1));
            let c = node_outcomes(a[k].nodes@[i].1)[w].1;
            assert(layers_have(a, first, c) == layers_have(o, first, c));
            assert(node_outcomes(o[k].nodes@[i].1)[w] == node_outcomes(a[k].nodes@[i].1)[w]);
        }
    }
    assert forall|k: int, i: int| 0 <= k < a.len() && k < o.len() && 0 <= i < a[k].nodes@.len() implies #[trigger] has_node(
        o[k].nodes@,
        a[k].nodes@[i].0,
    ) by {
        assert(same_node_shape(a[k].nodes@[i], o[k].nodes@[i]));
    }
    assert forall|k: int| 0 <= k < a.len() implies (#[trigger] a[k]).node_id_counter == o[k].node_id_counter && a[k].is_sent
        == o[k].is_sent by {}
    if layers_linked(o, first) {
        assert forall|k: int, i: int| 1 <= k < a.len() && 0 <= i < a[k].nodes@.len() implies #[trigger] node_linked(
            a,
            first,
            k,
            a[k].nodes@[i],
        ) by {
            let e = a[k].nodes@[i];
            assert(same_node_shape(e, o[k].nodes@[i]));
            assert(node_linked(o, first, k, o[k].nodes@[i]));
            let b = e.1.as_branch_from_parent.unwrap();
            let kp = b.from_node.layer_id.0 - first.0;
            assert forall|j: int| 0 <= j < o[kp].nodes@.len() implies (#[trigger] o[kp].nodes@[j]).0 == a[kp].nodes@[j].0 by {
                assert(same_node_shape(a[kp].nodes@[j], o[kp].nodes@[j]));
            }
            lemma_same_ids_index(o[kp].nodes@, a[kp].nodes@, b.from_node.node_id);
            let idx = node_index(o[kp].nodes@, b.from_node.node_id);
            assert(same_node_shape(a[kp].nodes@[idx], o[kp].nodes@[idx]));
            assert(node_outcomes(layers_node(a, first, b.from_node)) == node_outcomes(layers_node(o, first, b.from_node)));
        }
    }
}

/// Every outcome of a node of `ls` that leads to a node the layers hold leads to a node that
/// follows exactly that outcome of exactly that node.
pub closed spec fn layers_linked_down<const N: usize, S: Strategy<N>>(ls: Seq<StrategyTreeLayer<N, S>>, first: AbsoluteLayerId) -> bool {
    forall|k: int, i: int, w: int|
        0 <= k < ls.len() && 0 <= i < ls[k].nodes@.len() && 0 <= w < node_outcomes(ls[k].nodes@[i].1).len() && layers_have(
            ls,
            first,
            (#[trigger] node_outcomes(ls[k].nodes@[i].1)[w]).1,
        ) ==> layers_node(ls, first, node_outcomes(ls[k].nodes@[i].1)[w].1).as_branch_from_parent == Some(
            AbsolutePathId {
                from_node: AbsoluteNodeId { layer_id: ls[k].absolute_layer_id, node_id: ls[k].nodes@[i].0 },
                branch: node_outcomes(ls[k].nodes@[i].1)[w].0,
            },
        )
}

/// Node `y` is `x` or, held by `ls`, follows parent after parent from `x`.
pub closed spec fn descends<const N: usize, S: Strategy<N>>(
    ls: Seq<StrategyTreeLayer<N, S>>,
    first: AbsoluteLayerId,
    y: AbsoluteNodeId,
    x: AbsoluteNodeId,
) -> bool
    decreases y.layer_spec().0,
{
    y == x || (layers_have(ls, first, y) && match layers_node(ls, first, y).as_branch_from_parent {
        Some(b) => b.from_node.layer_id.0 < y.layer_id.0 && descends(ls, first, b.from_node, x),
        None => false,
    })
}

/// Node `y` is held by `ls` and its map's walls could be those of `m`, and so for the node it
/// follows, parent after parent.
pub closed spec fn lineage_fits<const N: usize, S: Strategy<N>>(
    ls: Seq<StrategyTreeLayer<N, S>>,
    first: AbsoluteLayerId,
    y: AbsoluteNodeId,
    m: MazeMap<N>,
) -> bool
    decreases y.layer_spec().0,
{
    &&& layers_have(ls, first, y)
    &&& layers_node(ls, first, y).on_basis_of_world.0.map.walls_potentially_eq(&m)
    &&& match layers_node(ls, first, y).as_branch_from_parent {
        Some(b) => b.from_node.layer_id.0 < y.layer_id.0 ==> lineage_fits(ls, first, b.from_node, m),
        None => true,
    }
}

proof fn lemma_descends_layer<const N: usize, S: Strategy<N>>(
    ls: Seq<StrategyTreeLayer<N, S>>,
    first: AbsoluteLayerId,
    y: AbsoluteNodeId,
    x: AbsoluteNodeId,
)
    requires
        descends(ls, first, y, x),
    ensures
        y.layer_id.0 >= x.layer_id.0,
    decreases y.layer_id.0,
{
    if y != x {
        let b = layers_node(ls, first, y).as_branch_from_parent.unwrap();
        lemma_descends_layer(ls, first, b.from_node, x);
    }
}

proof fn lemma_descends_lineage<const N: usize, S: Strategy<N>>(
    ls: Seq<StrategyTreeLayer<N, S>>,
    first: AbsoluteLayerId,
    y: AbsoluteNodeId,
    x: AbsoluteNodeId,
    m: MazeMap<N>,
)
    requires
        descends(ls, first, y, x),
        lineage_fits(ls, first, y, m),
    ensures
        lineage_fits(ls, first, x, m),
    decreases y.layer_id.0,
{
    if y != x {
        let b = layers_node(ls, first, y).as_branch_from_parent.unwrap();
        lemma_descends_lineage(ls, first, b.from_node, x, m);
    }
}

/// Descent carries over to layers that hold every node of `a` with the same parent.
proof fn lemma_descends_transfer<const N: usize, S: Strategy<N>>(
    a: Seq<StrategyTreeLayer<N, S>>,
    b: Seq<StrategyTreeLayer<N, S>>,
    first: AbsoluteLayerId,
    y: AbsoluteNodeId,
    x: AbsoluteNodeId,
)
    requires
        descends(a, first, y, x),
        forall|z: AbsoluteNodeId| #[trigger] layers_have(a, first, z) ==> layers_have(b, first, z)
            && layers_node(a, first, z).as_branch_from_parent == layers_node(b, first, z).as_branch_from_parent,
    ensures
        descends(b, first, y, x),
    decreases y.layer_id.0,
{
    if y != x {
        assert(layers_have(a, first, y));
        let p = layers_node(a, first, y).as_branch_from_parent.unwrap();
        lemma_descends_transfer(a, b, first, p.from_node, x);
    }
}

/// Taking an outcome from node `src` of `pre` gives `s0`: the same nodes, each with its
/// parent, and but for `src` unchanged; `src` keeps only outcomes it had.
proof fn lemma_take_frame<const N: usize, S: Strategy<N>>(
    pre: Seq<StrategyTreeLayer<N, S>>,
    s0: Seq<StrategyTreeLayer<N, S>>,
    first: AbsoluteLayerId,
    src: AbsoluteNodeId,
)
    requires
        pre.len() == s0.len(),
        layers_numbered(pre, first),
        layers_numbered(s0, first),
        layers_have(pre, first, src),
        forall|m: int| 0 <= m < s0.len() && m != src.layer_id.0 - first.0 ==> #[trigger] s0[m] == pre[m],
        s0[src.layer_id.0 - first.0].nodes@.len() == pre[src.layer_id.0 - first.0].nodes@.len(),
        forall|j: int|
            0 <= j < s0[src.layer_id.0 - first.0].nodes@.len() ==> (#[trigger] s0[src.layer_id.0 - first.0].nodes@[j]).0
                == pre[src.layer_id.0 - first.0].nodes@[j].0,
        forall|j: int|
            0 <= j < s0[src.layer_id.0 - first.0].nodes@.len() && j != node_index(pre[src.layer_id.0 - first.0].nodes@, src.node_id)
                ==> #[trigger] s0[src.layer_id.0 - first.0].nodes@[j] == pre[src.layer_id.0 - first.0].nodes@[j],
        s0[src.layer_id.0 - first.0].nodes@[node_index(pre[src.layer_id.0 - first.0].nodes@, src.node_id)].1.as_branch_from_parent
            == layers_node(pre, first, src).as_branch_from_parent,
        forall|w: int|
            0 <= w < node_outcomes(s0[src.layer_id.0 - first.0].nodes@[node_index(pre[src.layer_id.0 - first.0].nodes@, src.node_id)].1).len()
                ==> node_outcomes(layers_node(pre, first, src)).contains(
                #[trigger] node_outcomes(s0[src.layer_id.0 - first.0].nodes@[node_index(pre[src.layer_id.0 - first.0].nodes@, src.node_id)].1)[w],
            ),
    ensures
        forall|y: AbsoluteNodeId| #[trigger] layers_have(s0, first, y) == layers_have(pre, first, y),
        forall|y: AbsoluteNodeId|
            #[trigger] layers_have(s0, first, y) ==> layers_node(s0, first, y).as_branch_from_parent == layers_node(
                pre,
                first,
                y,
            ).as_branch_from_parent && (y != src ==> layers_node(s0, first, y) == layers_node(pre, first, y)),
        layers_linked_down(pre, first) ==> layers_linked_down(s0, first),
{
    let li = src.layer_id.0 - first.0;
    let isrc = node_index(pre[li].nodes@, src.node_id);
    lemma_same_ids_index(pre[li].nodes@, s0[li].nodes@, src.node_id);
    assert forall|y: AbsoluteNodeId| #[trigger] layers_have(s0, first, y) == layers_have(pre, first, y) && (layers_have(s0, first, y)
        ==> layers_node(s0, first, y).as_branch_from_parent == layers_node(pre, first, y).as_branch_from_parent && (y != src
        ==> layers_node(s0, first, y) == layers_node(pre, first, y))) by {
        let ky = y.layer_id.0 - first.0;
        if 0 <= ky < s0.len() {
            if ky != li {
                assert(s0[ky] == pre[ky]);
            } else {
                lemma_same_ids_index(pre[li].nodes@, s0[li].nodes@, y.node_id);
                if has_node(pre[li].nodes@, y.node_id) {
                    let iy = node_index(pre[li].nodes@, y.node_id);
                    if iy != isrc {
                        assert(s0[li].nodes@[iy] == pre[li].nodes@[iy]);
                    } else {
                        assert(y.node_id == src.node_id);
                    }
                }
            }
        }
    }
    if layers_linked_down(pre, first) {
        assert forall|k: int, i: int, w: int|
            0 <= k < s0.len() && 0 <= i < s0[k].nodes@.len() && 0 <= w < node_outcomes(s0[k].nodes@[i].1).len() && layers_have(
                s0,
                first,
                (#[trigger] node_outcomes(s0[k].nodes@[i].1)[w]).1,
            ) implies layers_node(s0, first, node_outcomes(s0[k].nodes@[i].1)[w].1).as_branch_from_parent == Some(
            AbsolutePathId {
                from_node: AbsoluteNodeId { layer_id: s0[k].absolute_layer_id, node_id: s0[k].nodes@[i].0 },
                branch: node_outcomes(s0[k].nodes@[i].1)[w].0,
            },
        ) by {
            let ent = node_outcomes(s0[k].nodes@[i].1)[w];
            assert(layers_have(s0, first, ent.1) == layers_have(pre, first, ent.1));
            assert(s0[k].absolute_layer_id == pre[k].absolute_layer_id);
            if k == li && i == isrc {
                let outs = node_outcomes(layers_node(pre, first, src));
                assert(outs.contains(ent));
                let w2 = choose|w2: int| 0 <= w2 < outs.len() && outs[w2] == ent;
                assert(node_outcomes(pre[k].nodes@[isrc].1)[w2] == ent);
                assert(s0[k].nodes@[i].0 == pre[k].nodes@[i].0);
            } else {
                assert(s0[k].nodes@[i] == pre[k].nodes@[i]) by {
                    if k != li {
                        assert(s0[k] == pre[k]);
                    }
                }
                assert(node_outcomes(pre[k].nodes@[i].1)[w] == ent);
            }
        }
    }
}

/// A node that an outcome of a descendant `z` of `x` leads to descends from `x` as well.
proof fn lemma_child_descends<const N: usize, S: Strategy<N>>(
    pre: Seq<StrategyTreeLayer<N, S>>,
    first: AbsoluteLayerId,
    z: AbsoluteNodeId,
    x: AbsoluteNodeId,
    w: int,
)
    requires
        layers_numbered(pre, first),
        forall|m: int| 0 <= m < pre.len() ==> (#[trigger] pre[m]).children_in(AbsoluteLayerId((first.0 + m + 1) as usize)),
        layers_linked_down(pre, first),
        layers_have(pre, first, z),
        descends(pre, first, z, x),
        0 <= w < node_outcomes(layers_node(pre, first, z)).len(),
        layers_have(pre, first, node_outcomes(layers_node(pre, first, z))[w].1),
        first.0 + pre.len() <= usize::MAX,
    ensures
        descends(pre, first, node_outcomes(layers_node(pre, first, z))[w].1, x),
{
    let kz = z.layer_id.0 - first.0;
    let iz = node_index(pre[kz].nodes@, z.node_id);
    let outs = node_outcomes(pre[kz].nodes@[iz].1);
    let c = outs[w].1;
    assert(pre[kz].children_in(AbsoluteLayerId((first.0 + kz + 1) as usize)));
    assert(node_children_in(pre[kz].nodes@[iz].1, AbsoluteLayerId((first.0 + kz + 1) as usize)));
    assert(c.layer_spec() == AbsoluteLayerId((first.0 + kz + 1) as usize));
    assert(pre[kz].absolute_layer_id.0 == first.0 + kz);
    assert(AbsoluteNodeId { layer_id: pre[kz].absolute_layer_id, node_id: pre[kz].nodes@[iz].0 } == z);
    assert(layers_node(pre, first, c).as_branch_from_parent == Some(
        AbsolutePathId { from_node: AbsoluteNodeId { layer_id: pre[kz].absolute_layer_id, node_id: pre[kz].nodes@[iz].0 }, branch: outs[w].0 },
    ));
    assert(c.layer_id.0 == first.0 + kz + 1);
    assert(z.layer_id.0 < c.layer_id.0);
    assert(layers_node(pre, first, z) == pre[kz].nodes@[iz].1);
}

/// The typed node a sent node becomes once sent: not expandable, as it has no strategy state.
pub open spec fn from_sent<const N: usize, S: Strategy<N>>(n: SentCommandNode<N>) -> StrategyTreeNode<N, S> {
    StrategyTreeNode {
        on_basis_of_world: n.world_spec(),
        on_basis_of_state: None,
        applied_strategy: Some(n.applied_spec()),
        as_branch_from_parent: n.parent_spec(),
    }
}

impl<const N: usize> SentCommandNode<N> {
    /// The outcome of the parent node this node follows, if any.
    pub closed spec fn parent_spec(&self) -> Option<AbsolutePathId> {
        self.as_branch_from_parent
    }

    /// The world the node starts from.
    pub closed spec fn world_spec(&self) -> PartialWorldData<N> {
        self.on_basis_of_world
    }

    /// What the strategy decided at the node.
    pub closed spec fn applied_spec(&self) -> Result<NodeAction<N>, StrategyEndState> {
        self.applied_strategy
    }

    /// The node as a typed node that follows outcome `at` and cannot be expanded.
    pub fn as_nonexpandable<S: Strategy<N>>(self, at: AbsolutePathId) -> (r: StrategyTreeNode<N, S>)
        ensures
            r.on_basis_of_world == self.world_spec(),
            r.on_basis_of_state is None,
            r.applied_strategy == Some(self.applied_spec()),
            r.as_branch_from_parent == Some(at),
    {
        StrategyTreeNode {
            on_basis_of_world: self.on_basis_of_world,
            on_basis_of_state: None,
            applied_strategy: Some(self.applied_strategy),
            as_branch_from_parent: Some(at),
        }
    }
}

impl<const N: usize, S: Strategy<N>> StrategyTreeNode<N, S> {
    /// A node not decided on yet, following outcome `at` of its parent.
    pub fn new_leaf(world_at_start_of_node: PartialWorldData<N>, state_at_start_of_node: Option<S>, at: AbsolutePathId) -> (r: Self)
        ensures
            r.on_basis_of_world == world_at_start_of_node,
            r.on_basis_of_state == state_at_start_of_node,
            r.applied_strategy is None,
            r.as_branch_from_parent == Some(at),
    {
        Self {
            on_basis_of_world: world_at_start_of_node,
            on_basis_of_state: state_at_start_of_node,
            applied_strategy: None,
            as_branch_from_parent: Some(at),
        }
    }

    /// A node not decided on yet, without a parent.
    pub fn new_orphan(world_at_start_of_node: PartialWorldData<N>, state_at_start_of_node: Option<S>) -> (r: Self)
        ensures
            r.on_basis_of_world == world_at_start_of_node,
            r.on_basis_of_state == state_at_start_of_node,
            r.applied_strategy is None,
            r.as_branch_from_parent is None,
    {
        Self {
            on_basis_of_world: world_at_start_of_node,
            on_basis_of_state: state_at_start_of_node,
            applied_strategy: None,
            as_branch_from_parent: None,
        }
    }

    /// A sent node as a typed node that cannot be expanded (see `from_sent`).
    pub fn non_expandable_from_cleaned(cleaned: SentCommandNode<N>) -> (r: Self)
        ensures
            r == from_sent::<N, S>(cleaned),
    {
        Self {
            on_basis_of_world: cleaned.on_basis_of_world,
            on_basis_of_state: None,
            applied_strategy: Some(cleaned.applied_strategy),
            as_branch_from_parent: cleaned.as_branch_from_parent,
        }
    }

    /// The nodes the outcomes of the node's command lead to; `None` unless a command was
    /// decided on.
    pub fn children(&self) -> (r: Option<&Vec<(PathLocalOutcomeId, AbsoluteNodeId)>>)
        ensures
            match self.applied_strategy {
                Some(Ok(a)) => r == Some(&a.potential_outcomes),
                _ => r is None,
            },
    {
        match &self.applied_strategy {
            Some(Ok(a)) => Some(&a.potential_outcomes),
            _ => None,
        }
    }
}

/// The index of the entry with id `id`, if there is one.
fn find_node<V>(nodes: &Vec<(RelativeNodeId, V)>, id: RelativeNodeId) -> (r: Option<usize>)
    requires
        node_ids_unique(nodes@),
    ensures
        match r {
            Some(i) => i < nodes@.len() && nodes@[i as int].0 == id && has_node(nodes@, id) && i == node_index(nodes@, id),
            None => !has_node(nodes@, id),
        },
{
    let mut i: usize = 0;
    while i < nodes.len()
        invariant
            i <= nodes.len(),
            node_ids_unique(nodes@),
            forall|m: int| 0 <= m < i ==> nodes@[m].0 != id,
        decreases nodes.len() - i,
    {
        if nodes[i].0 == id {
            proof {
                assert(has_node(nodes@, id));
                let c = node_index(nodes@, id);
                assert(nodes@[c].0 == id);
            }
            return Some(i);
        }
        i = i + 1;
    }
    None
}

impl<const N: usize, S: Strategy<N>> StrategyTreeLayer<N, S> {
    /// The nodes by id.
    pub closed spec fn nodes_spec(&self) -> Seq<(RelativeNodeId, StrategyTreeNode<N, S>)> {
        self.nodes@
    }

    /// The layer's id.
    pub closed spec fn layer_id_spec(&self) -> AbsoluteLayerId {
        self.absolute_layer_id
    }

    /// Whether all nodes of the layer are expanded.
    pub closed spec fn fully_expanded_spec(&self) -> bool {
        self.is_fully_expanded
    }

    /// The command all nodes agree on, once found.
    pub closed spec fn eq_command_spec(&self) -> Option<Command> {
        self.eq
    }

    /// The number of nodes added and not deleted.
    pub closed spec fn node_count_spec(&self) -> usize {
        self.node_count
    }

    /// The id the next added node gets.
    pub closed spec fn next_id_spec(&self) -> usize {
        self.node_id_counter.0
    }

    /// Whether the layer was sent.
    pub closed spec fn is_sent_spec(&self) -> bool {
        self.is_sent
    }

    /// No node id occurs twice, the node count is the number of nodes, and, until the layer is
    /// sent, every node id was handed out by the layer's counter.
    pub open spec fn wf(&self) -> bool {
        &&& node_ids_unique(self.nodes_spec())
        &&& self.node_count_spec() == self.nodes_spec().len()
        &&& (!self.is_sent_spec() && self.next_id_spec() < usize::MAX) ==> forall|i: int|
            0 <= i < self.nodes_spec().len() ==> (#[trigger] self.nodes_spec()[i]).0.0 < self.next_id_spec()
    }

    /// Every outcome of a command decided on in the layer leads to a node of layer `next`.
    pub open spec fn children_in(&self, next: AbsoluteLayerId) -> bool {
        forall|i: int| 0 <= i < self.nodes_spec().len() ==> node_children_in(#[trigger] self.nodes_spec()[i].1, next)
    }

    /// The command all nodes apply, if every node decided on the same command.
    pub open spec fn common_command(&self) -> Option<Command> {
        let nodes = self.nodes_spec();
        if !self.fully_expanded_spec() || self.node_count_spec() == 0 {
            None
        } else if forall|i: int| 0 <= i < nodes.len() ==> (#[trigger] node_command(nodes[i].1)) is Some && same_command(
            node_command(nodes[i].1).unwrap(),
            node_command(nodes[0].1).unwrap(),
        ) {
            node_command(nodes[0].1)
        } else {
            None
        }
    }

    /// An empty layer with id `absolute_layer_id`.
    pub fn new(absolute_layer_id: AbsoluteLayerId) -> (r: Self)
        ensures
            r.wf(),
            r.nodes_spec().len() == 0,
            r.layer_id_spec() == absolute_layer_id,
            !r.fully_expanded_spec(),
            r.eq_command_spec() is None,
            r.node_count_spec() == 0,
            r.next_id_spec() == 0,
            !r.is_sent_spec(),
    {
        Self {
            node_id_counter: RelativeNodeIdCounter::default(),
            nodes: Vec::new(),
            absolute_layer_id,
            is_fully_expanded: false,
            eq: None,
            node_count: 0,
            is_sent: false,
        }
    }

    /// The node with id `node_id`, if there is one.
    pub fn node(&self, node_id: RelativeNodeId) -> (r: Option<&StrategyTreeNode<N, S>>)
        requires
            self.wf(),
        ensures
            match r {
                Some(n) => has_node(self.nodes_spec(), node_id) && *n == self.nodes_spec()[node_index(
                    self.nodes_spec(),
                    node_id,
                )].1,
                None => !has_node(self.nodes_spec(), node_id),
            },
    {
        match find_node(&self.nodes, node_id) {
            Some(i) => Some(&self.nodes[i].1),
            None => None,
        }
    }

    /// Adds `node` under the next id, which is returned; as the layer's counter handed out
    /// every id in it, the id is new.
    pub fn add_node(&mut self, node: StrategyTreeNode<N, S>) -> (r: RelativeNodeId)
        requires
            old(self).wf(),
            !old(self).is_sent_spec(),
            old(self).next_id_spec() < usize::MAX,
            old(self).node_count_spec() < usize::MAX,
        ensures
            final(self).wf(),
            r == RelativeNodeId(old(self).next_id_spec()),
            final(self).next_id_spec() == old(self).next_id_spec() + 1,
            final(self).node_count_spec() == old(self).node_count_spec() + 1,
            !has_node(old(self).nodes_spec(), r),
            final(self).nodes_spec() == old(self).nodes_spec().push((r, node)),
            final(self).layer_id_spec() == old(self).layer_id_spec(),
            final(self).fully_expanded_spec() == old(self).fully_expanded_spec(),
            final(self).eq_command_spec() == old(self).eq_command_spec(),
            final(self).is_sent_spec() == old(self).is_sent_spec(),
    {
        let ghost pre = self.nodes@;
        let next_id = self.node_id_counter.next();
        assert(!has_node(pre, next_id)) by {
            if has_node(pre, next_id) {
                let i = choose|i: int| 0 <= i < pre.len() && pre[i].0 == next_id;
                assert(pre[i].0.0 < next_id.0);
            }
        }
        self.nodes.push((next_id, node));
        proof {
            assert(node_ids_unique(self.nodes@));
            assert forall|i: int| 0 <= i < self.nodes@.len() implies (#[trigger] self.nodes@[i]).0.0 < self.node_id_counter.0 by {
                if i < pre.len() {
                    assert(self.nodes@[i] == pre[i]);
                }
            }
        }
        self.node_count = self.node_count + 1;
        next_id
    }
}

impl<const N: usize> SentTreeLayer<N> {
    /// The nodes by id.
    pub closed spec fn nodes_spec(&self) -> Seq<(RelativeNodeId, SentCommandNode<N>)> {
        self.nodes@
    }

    /// The layer's id.
    pub closed spec fn layer_id_spec(&self) -> AbsoluteLayerId {
        self.absolute_layer_id
    }

    /// The number of nodes.
    pub closed spec fn node_count_spec(&self) -> usize {
        self.node_count
    }

    /// The command all nodes of the layer applied.
    pub closed spec fn eq_command_spec(&self) -> Command {
        self.eq
    }
}

impl<const N: usize, S: Strategy<N>> StrategyTreeLayer<N, S> {
    /// A sent layer as a typed layer whose nodes cannot be expanded: fully expanded, sent, with
    /// the sent command as common command.
    pub fn non_expandable_from_cleaned(sent_layer: SentTreeLayer<N>) -> (r: Self)
        ensures
            r.nodes_spec().len() == sent_layer.nodes_spec().len(),
            forall|i: int|
                0 <= i < r.nodes_spec().len() ==> (#[trigger] r.nodes_spec()[i]).0 == sent_layer.nodes_spec()[i].0
                    && r.nodes_spec()[i].1 == from_sent::<N, S>(sent_layer.nodes_spec()[i].1),
            r.layer_id_spec() == sent_layer.layer_id_spec(),
            r.fully_expanded_spec(),
            r.eq_command_spec() == Some(sent_layer.eq_command_spec()),
            r.node_count_spec() == sent_layer.node_count_spec(),
            r.next_id_spec() == 0,
            r.is_sent_spec(),
    {
        let ghost src0 = sent_layer.nodes@;
        let mut src = sent_layer.nodes;
        let mut transformed_nodes: Vec<(RelativeNodeId, StrategyTreeNode<N, S>)> = Vec::new();
        while src.len() > 0
            invariant
                transformed_nodes@.len() + src@.len() == src0.len(),
                src@ == src0.subrange(transformed_nodes@.len() as int, src0.len() as int),
                forall|i: int|
                    0 <= i < transformed_nodes@.len() ==> (#[trigger] transformed_nodes@[i]).0 == src0[i].0
                        && transformed_nodes@[i].1 == from_sent::<N, S>(src0[i].1),
            decreases src@.len(),
        {
            let (id, val) = src.remove(0);
            let ghost k = transformed_nodes@.len() as int;
            assert(src0[k] == (id, val));
            transformed_nodes.push((id, StrategyTreeNode::<N, S>::non_expandable_from_cleaned(val)));
            assert(src@ =~= src0.subrange(transformed_nodes@.len() as int, src0.len() as int));
        }
        StrategyTreeLayer {
            nodes: transformed_nodes,
            absolute_layer_id: sent_layer.absolute_layer_id,
            is_fully_expanded: true,
            eq: Some(sent_layer.eq),
            node_count: sent_layer.node_count,
            // Not used once the layer was sent.
            node_id_counter: RelativeNodeIdCounter(0),
            is_sent: true,
        }
    }

    /// Removes the node with id `node`; returns the nodes its outcomes lead to (none if no
    /// command was decided on there), or `UnknownNode` if there is no such node.
    pub fn delete_node(&mut self, node: RelativeNodeId) -> (r: Result<Vec<AbsoluteNodeId>, PruneError>)
        requires
            old(self).wf(),
        ensures
            final(self).wf(),
            final(self).layer_id_spec() == old(self).layer_id_spec(),
            final(self).fully_expanded_spec() == old(self).fully_expanded_spec(),
            final(self).eq_command_spec() == old(self).eq_command_spec(),
            final(self).next_id_spec() == old(self).next_id_spec(),
            final(self).is_sent_spec() == old(self).is_sent_spec(),
            !has_node(old(self).nodes_spec(), node) ==> {
                &&& r matches Err(PruneError::UnknownNode(id)) && id.layer_spec() == old(self).layer_id_spec()
                    && id.node_spec() == node
                &&& final(self).nodes_spec() == old(self).nodes_spec()
                &&& final(self).node_count_spec() == old(self).node_count_spec()
                &&& *final(self) == *old(self)
            },
            has_node(old(self).nodes_spec(), node) ==> {
                let i = node_index(old(self).nodes_spec(), node);
                &&& final(self).nodes_spec() == old(self).nodes_spec().remove(i)
                &&& final(self).node_count_spec() == old(self).node_count_spec() - 1
                &&& r matches Ok(v) && v@ == match old(self).nodes_spec()[i].1.applied_strategy {
                    Some(Ok(a)) => a.potential_outcomes@.map_values(|p: (PathLocalOutcomeId, AbsoluteNodeId)| p.1),
                    _ => Seq::empty(),
                }
            },
    {
        let i = match find_node(&self.nodes, node) {
            Some(i) => i,
            None => {
                return Err(PruneError::UnknownNode(AbsoluteNodeId { layer_id: self.absolute_layer_id, node_id: node }));
            },
        };
        let ghost pre = self.nodes@;
        let (_, removed) = self.nodes.remove(i);
        proof {
            assert forall|a: int, b: int| 0 <= a < b < self.nodes@.len() implies self.nodes@[a].0 != self.nodes@[b].0 by {
                if a < i && b >= i {
                    assert(self.nodes@[b] == pre[b + 1]);
                } else if a >= i {
                    assert(self.nodes@[a] == pre[a + 1]);
                    assert(self.nodes@[b] == pre[b + 1]);
                }
            }
        }
        self.node_count = self.node_count - 1;
        match removed.applied_strategy {
            Some(Ok(c)) => {
                let mut out: Vec<AbsoluteNodeId> = Vec::new();
                let mut k: usize = 0;
                while k < c.potential_outcomes.len()
                    invariant
                        k <= c.potential_outcomes.len(),
                        out@ == c.potential_outcomes@.take(k as int).map_values(|p: (PathLocalOutcomeId, AbsoluteNodeId)| p.1),
                    decreases c.potential_outcomes.len() - k,
                {
                    out.push(c.potential_outcomes[k].1);
                    k = k + 1;
                    assert(out@ =~= c.potential_outcomes@.take(k as int).map_values(|p: (PathLocalOutcomeId, AbsoluteNodeId)| p.1));
                }
                assert(c.potential_outcomes@.take(k as int) =~= c.potential_outcomes@);
                Ok(out)
            },
            _ => Ok(Vec::new()),
        }
    }

    /// The command all nodes apply, if the layer is fully expanded, has nodes, and every node
    /// decided on the same command (see `common_command`).
    pub fn equal_command(&self) -> (r: Option<Command>)
        requires
            (self.fully_expanded_spec() && self.node_count_spec() != 0) ==> self.nodes_spec().len() > 0,
        ensures
            r is Some == self.common_command() is Some,
            r matches Some(c) ==> same_command(c, self.common_command().unwrap()),
    {
        if !self.is_fully_expanded {
            return None;
        }
        if self.node_count == 0 {
            return None;
        }
        let first = &self.nodes[0].1;
        let a = match &first.applied_strategy {
            Some(Ok(a)) => a,
            _ => {
                assert(node_command(self.nodes@[0].1) is None);
                return None;
            },
        };
        let cmd = a.command.command().clone();
        let mut i: usize = 1;
        while i < self.nodes.len()
            invariant
                1 <= i <= self.nodes.len(),
                node_command(self.nodes@[0].1) == Some(a.command.command_spec()),
                same_command(cmd, a.command.command_spec()),
                forall|m: int| 0 <= m < i ==> (#[trigger] node_command(self.nodes@[m].1)) is Some && same_command(
                    node_command(self.nodes@[m].1).unwrap(),
                    node_command(self.nodes@[0].1).unwrap(),
                ),
            decreases self.nodes.len() - i,
        {
            let other = &self.nodes[i].1;
            match &other.applied_strategy {
                Some(Ok(b)) => {
                    if cmd != *b.command.command() {
                        assert(!same_command(node_command(self.nodes@[i as int].1).unwrap(), node_command(self.nodes@[0].1).unwrap()));
                        return None;
                    }
                },
                _ => {
                    assert(node_command(self.nodes@[i as int].1) is None);
                    return None;
                },
            }
            i = i + 1;
        }
        Some(cmd)
    }

    /// Records the common command if it is not known yet; whether the layer has one.
    pub fn update_eq_command(&mut self) -> (r: bool)
        requires
            (old(self).fully_expanded_spec() && old(self).node_count_spec() != 0) ==> old(self).nodes_spec().len() > 0,
        ensures
            final(self).nodes_spec() == old(self).nodes_spec(),
            final(self).layer_id_spec() == old(self).layer_id_spec(),
            final(self).fully_expanded_spec() == old(self).fully_expanded_spec(),
            final(self).node_count_spec() == old(self).node_count_spec(),
            final(self).next_id_spec() == old(self).next_id_spec(),
            final(self).is_sent_spec() == old(self).is_sent_spec(),
            old(self).eq_command_spec() is Some ==> r && final(self).eq_command_spec() == old(self).eq_command_spec(),
            (old(self).eq_command_spec() is None && !old(self).fully_expanded_spec()) ==> !r && final(self).eq_command_spec() is None,
            (old(self).eq_command_spec() is None && old(self).fully_expanded_spec()) ==> {
                &&& r == old(self).common_command() is Some
                &&& final(self).eq_command_spec() is Some == r
                &&& r ==> same_command(final(self).eq_command_spec().unwrap(), old(self).common_command().unwrap())
            },
    {
        if self.eq.is_some() {
            return true;
        }
        if !self.is_fully_expanded {
            return false;
        }
        self.eq = self.equal_command();
        if self.eq.is_some() {
            return true;
        }
        false
    }
}

impl<const N: usize, S: Strategy<N>> StrategyTreeLayer<N, S> {
    /// Mutable access to the node with id `node_id`, if there is one; writing through the
    /// reference changes that node and nothing else.
    pub fn node_mut(&mut self, node_id: RelativeNodeId) -> (r: Option<&mut StrategyTreeNode<N, S>>)
        requires
            old(self).wf(),
        ensures
            final(self).layer_id_spec() == old(self).layer_id_spec(),
            final(self).fully_expanded_spec() == old(self).fully_expanded_spec(),
            final(self).eq_command_spec() == old(self).eq_command_spec(),
            final(self).node_count_spec() == old(self).node_count_spec(),
            final(self).next_id_spec() == old(self).next_id_spec(),
            final(self).is_sent_spec() == old(self).is_sent_spec(),
            match r {
                Some(n) => {
                    let i = node_index(old(self).nodes_spec(), node_id);
                    &&& has_node(old(self).nodes_spec(), node_id)
                    &&& *n == old(self).nodes_spec()[i].1
                    &&& final(self).nodes_spec() == old(self).nodes_spec().update(i, (node_id, *final(n)))
                },
                None => !has_node(old(self).nodes_spec(), node_id) && final(self).nodes_spec() == old(self).nodes_spec(),
            },
    {
        match find_node(&self.nodes, node_id) {
            Some(i) => Some(&mut self.nodes[i].1),
            None => None,
        }
    }
}

impl<const N: usize, S: Strategy<N>> StrategyTreeNode<N, S> {
    /// Mutable access to the nodes the outcomes lead to; `None` unless a command was decided on.
    /// Writing through the reference changes them and nothing else.
    pub fn children_mut(&mut self) -> (r: Option<&mut Vec<(PathLocalOutcomeId, AbsoluteNodeId)>>)
        ensures
            final(self).on_basis_of_world == old(self).on_basis_of_world,
            final(self).on_basis_of_state == old(self).on_basis_of_state,
            final(self).as_branch_from_parent == old(self).as_branch_from_parent,
            match old(self).applied_strategy {
                Some(Ok(a)) => r matches Some(v) && *v == a.potential_outcomes && final(self).applied_strategy
                    == Some(Ok::<NodeAction<N>, StrategyEndState>(NodeAction { command: a.command, potential_outcomes: *final(v) })),
                _ => r is None && final(self).applied_strategy == old(self).applied_strategy,
            },
    {
        match &mut self.applied_strategy {
            Some(Ok(a)) => Some(&mut a.potential_outcomes),
            _ => None,
        }
    }
}


/// A tree of the commands a strategy decides on: one layer per command, the first holding the
/// single node the mouse is currently at. Layers up to the highest sent one were sent to the
/// mouse; those up to the highest equal one agree on a command; the highest full layer is the
/// last whose nodes were all expanded, or the first layer while it is not expanded yet.
pub struct StrategyTree<const N: usize, S: Strategy<N> + Clone + FromConfig<N>> {
    config: StrategyTreeConfig<N, S>,
    layers: Vec<StrategyTreeLayer<N, S>>,
    highest_sent_layer: usize,
    highest_eq_layer: usize,
    highest_full_layer: usize,
    first_layer_absolute_id: AbsoluteLayerId,
    node_count: usize,
    goal_position: GoalPosition,
}

/// A new tree, with the command of its root if it was created at a state (that command counts
/// as sent).
pub struct TreeCreationSuccess<const N: usize, S: Strategy<N> + Clone + FromConfig<N>> {
    pub tree: StrategyTree<N, S>,
    pub origin_command: Option<Command>,
}

/// The number of nodes of all layers.
pub open spec fn layers_node_count<const N: usize, S: Strategy<N>>(ls: Seq<StrategyTreeLayer<N, S>>) -> int
    decreases ls.len(),
{
    if ls.len() == 0 {
        0
    } else {
        layers_node_count(ls.drop_last()) + ls.last().node_count_spec()
    }
}

proof fn lemma_count_update<const N: usize, S: Strategy<N>>(ls: Seq<StrategyTreeLayer<N, S>>, i: int, l: StrategyTreeLayer<N, S>)
    requires
        0 <= i < ls.len(),
    ensures
        layers_node_count(ls.update(i, l)) == layers_node_count(ls) - ls[i].node_count_spec() + l.node_count_spec(),
    decreases ls.len(),
{
    if i < ls.len() - 1 {
        assert(ls.update(i, l).drop_last() =~= ls.drop_last().update(i, l));
        lemma_count_update(ls.drop_last(), i, l);
    } else {
        assert(ls.update(i, l).drop_last() =~= ls.drop_last());
    }
}

proof fn lemma_count_push<const N: usize, S: Strategy<N>>(ls: Seq<StrategyTreeLayer<N, S>>, l: StrategyTreeLayer<N, S>)
    ensures
        layers_node_count(ls.push(l)) == layers_node_count(ls) + l.node_count_spec(),
{
    assert(ls.push(l).drop_last() =~= ls);
}

proof fn lemma_count_first<const N: usize, S: Strategy<N>>(ls: Seq<StrategyTreeLayer<N, S>>)
    requires
        ls.len() >= 1,
    ensures
        layers_node_count(ls) == ls[0].node_count_spec() + layers_node_count(ls.subrange(1, ls.len() as int)),
    decreases ls.len(),
{
    if ls.len() > 1 {
        lemma_count_first(ls.drop_last());
        assert(ls.subrange(1, ls.len() as int).drop_last() =~= ls.drop_last().subrange(1, ls.len() - 1));
    } else {
        assert(ls.drop_last() =~= Seq::<StrategyTreeLayer<N, S>>::empty());
        assert(ls.subrange(1, ls.len() as int) =~= Seq::<StrategyTreeLayer<N, S>>::empty());
    }
}

proof fn lemma_count_nonneg<const N: usize, S: Strategy<N>>(ls: Seq<StrategyTreeLayer<N, S>>, i: int)
    requires
        0 <= i < ls.len(),
    ensures
        layers_node_count(ls) >= ls[i].node_count_spec(),
    decreases ls.len(),
{
    if i < ls.len() - 1 {
        lemma_count_nonneg(ls.drop_last(), i);
    }
    lemma_count_ge0(ls.drop_last());
}

proof fn lemma_count_ge0<const N: usize, S: Strategy<N>>(ls: Seq<StrategyTreeLayer<N, S>>)
    ensures
        layers_node_count(ls) >= 0,
    decreases ls.len(),
{
    if ls.len() > 0 {
        lemma_count_ge0(ls.drop_last());
    }
}

impl<const N: usize, S: Strategy<N> + Clone + FromConfig<N>> StrategyTree<N, S> {
    /// The layers, from the one the mouse is at on.
    pub closed spec fn layers_spec(&self) -> Seq<StrategyTreeLayer<N, S>> {
        self.layers@
    }

    /// The id of the first layer.
    pub closed spec fn first_layer_spec(&self) -> AbsoluteLayerId {
        self.first_layer_absolute_id
    }

    /// The highest layer sent to the mouse, relative to the first.
    pub closed spec fn highest_sent_spec(&self) -> int {
        self.highest_sent_layer as int
    }

    /// The highest layer up to which every layer has a common command, relative to the first.
    pub closed spec fn highest_eq_spec(&self) -> int {
        self.highest_eq_layer as int
    }

    /// The highest full layer, relative to the first.
    pub closed spec fn highest_full_spec(&self) -> int {
        self.highest_full_layer as int
    }

    /// The number of nodes.
    pub closed spec fn node_count_spec(&self) -> int {
        self.node_count as int
    }

    /// The layers are numbered consecutively from the first layer's id on and are each well
    /// formed; the node count is that of all layers; the sent, equal and full layers lie in
    /// that order within the tree, and every layer after the highest sent one up to the
    /// highest equal one has its common command.
    pub closed spec fn wf(&self) -> bool {
        let ls = self.layers@;
        &&& 1 <= ls.len()
        &&& self.first_layer_absolute_id.0 + ls.len() <= usize::MAX
        &&& forall|i: int|
            0 <= i < ls.len() ==> (#[trigger] ls[i]).wf() && ls[i].layer_id_spec().0 == self.first_layer_absolute_id.0 + i
                && ls[i].children_in(AbsoluteLayerId((self.first_layer_absolute_id.0 + i + 1) as usize))
        &&& self.highest_sent_layer <= self.highest_eq_layer <= self.highest_full_layer < ls.len()
        &&& self.node_count == layers_node_count(ls)
        &&& forall|i: int|
            self.highest_sent_layer < i <= self.highest_eq_layer ==> (#[trigger] ls[i]).eq_command_spec() is Some
    }

    /// The first layer holds exactly one node, the root.
    pub open spec fn single_root(&self) -> bool {
        self.layers_spec()[0].nodes_spec().len() == 1
    }

    /// The position of layer `id` in the tree, if the tree has it.
    fn layer_index(&self, id: AbsoluteLayerId) -> (r: Option<usize>)
        requires
            self.wf(),
        ensures
            match r {
                Some(i) => i < self.layers@.len() && self.layers@[i as int].layer_id_spec() == id,
                None => forall|i: int| 0 <= i < self.layers@.len() ==> self.layers@[i].layer_id_spec() != id,
            },
    {
        if id.0 < self.first_layer_absolute_id.0 {
            return None;
        }
        let i = id.0 - self.first_layer_absolute_id.0;
        if i < self.layers.len() {
            assert(self.layers@[i as int].layer_id_spec().0 == id.0);
            Some(i)
        } else {
            None
        }
    }

    /// The root node's id.
    fn root_node(&self) -> (r: AbsoluteNodeId)
        requires
            self.wf(),
            self.single_root(),
        ensures
            r.layer_spec() == self.first_layer_absolute_id,
            r.node_spec() == self.layers@[0].nodes_spec()[0].0,
    {
        let rel_id = self.layers[0].first_node_id();
        AbsoluteNodeId { layer_id: self.first_layer_absolute_id, node_id: rel_id }
    }

    /// The node with id `node_id`, if the tree has it.
    fn node(&self, node_id: AbsoluteNodeId) -> (r: Option<&StrategyTreeNode<N, S>>)
        requires
            self.wf(),
        ensures
            match r {
                Some(n) => layers_have(self.layers@, self.first_layer_absolute_id, node_id) && *n == layers_node(
                    self.layers@,
                    self.first_layer_absolute_id,
                    node_id,
                ),
                None => !layers_have(self.layers@, self.first_layer_absolute_id, node_id),
            },
    {
        match self.layer_index(node_id.layer_id) {
            None => None,
            Some(i) => self.layers[i].node(node_id.node_id),
        }
    }

    /// Adds `node` to the layer at position `rel`, creating that layer if it is the one after
    /// the last.
    fn add_node(&mut self, node: StrategyTreeNode<N, S>, rel: usize) -> (r: Option<AbsoluteNodeId>)
        requires
            old(self).wf(),
            1 <= rel <= old(self).layers@.len(),
            node_children_in(node, AbsoluteLayerId((old(self).first_layer_absolute_id.0 + rel + 1) as usize)),
        ensures
            r matches Some(id) ==> id.layer_spec().0 == old(self).first_layer_absolute_id.0 + rel,
            final(self).wf(),
            final(self).first_layer_absolute_id == old(self).first_layer_absolute_id,
            final(self).highest_sent_layer == old(self).highest_sent_layer,
            final(self).highest_eq_layer == old(self).highest_eq_layer,
            final(self).highest_full_layer == old(self).highest_full_layer,
            final(self).layers@.len() >= old(self).layers@.len(),
            final(self).layers@[0] == old(self).layers@[0],
            forall|i: int| 0 <= i < old(self).layers@.len() ==> (#[trigger] final(self).layers@[i]).eq_command_spec()
                == old(self).layers@[i].eq_command_spec(),
            layers_grow(old(self).layers@, final(self).layers@),
    {
        proof {
            lemma_grow_refl(self.layers@);
        }
        if rel == self.layers.len() {
            if self.first_layer_absolute_id.0 + rel >= usize::MAX {
                return None;
            }
            let id = AbsoluteLayerId(self.first_layer_absolute_id.0 + rel);
            let ghost pre = self.layers@;
            self.layers.push(StrategyTreeLayer::new(id));
            proof {
                lemma_count_push(pre, self.layers@[rel as int]);
                assert forall|i: int| 0 <= i < self.layers@.len() implies (#[trigger] self.layers@[i]).wf()
                    && self.layers@[i].layer_id_spec().0 == self.first_layer_absolute_id.0 + i by {
                    if i < pre.len() {
                        assert(self.layers@[i] == pre[i]);
                    }
                }
                assert forall|i: int| self.highest_sent_layer < i <= self.highest_eq_layer implies (
                #[trigger] self.layers@[i]).eq_command_spec() is Some by {
                    assert(self.layers@[i] == pre[i]);
                }
                lemma_grow_prefix(pre, self.layers@);
            }
        }
        if self.node_count == usize::MAX {
            return None;
        }
        let layer = &self.layers[rel];
        if layer.is_sent || layer.node_id_counter.0 == usize::MAX || layer.node_count == usize::MAX {
            return None;
        }
        let ghost pre = self.layers@;
        let ghost gnode = node;
        let mut l = self.layers.remove(rel);
        let ghost lpre = l;
        let node_id = l.add_node(node);
        self.layers.insert(rel, l);
        proof {
            let next = AbsoluteLayerId((self.first_layer_absolute_id.0 + rel + 1) as usize);
            assert(lpre.children_in(next));
            assert forall|j: int| 0 <= j < l.nodes_spec().len() implies node_children_in(#[trigger] l.nodes_spec()[j].1, next) by {
                if j < lpre.nodes_spec().len() {
                    assert(l.nodes_spec()[j] == lpre.nodes_spec()[j]);
                } else {
                    assert(l.nodes_spec()[j].1 == gnode);
                }
            }
            assert(self.layers@ =~= pre.update(rel as int, l));
            lemma_count_update(pre, rel as int, l);
            assert forall|i: int| 0 <= i < self.layers@.len() implies (#[trigger] self.layers@[i]).wf()
                && self.layers@[i].layer_id_spec().0 == self.first_layer_absolute_id.0 + i by {
                if i != rel {
                    assert(self.layers@[i] == pre[i]);
                }
            }
            assert forall|i: int| self.highest_sent_layer < i <= self.highest_eq_layer implies (
            #[trigger] self.layers@[i]).eq_command_spec() is Some by {
                if i != rel {
                    assert(self.layers@[i] == pre[i]);
                }
            }
            assert forall|k: int| 0 <= k < pre.len() implies (#[trigger] self.layers@[k]).node_id_counter.0 >= pre[k].node_id_counter.0
                && (pre[k].is_sent ==> self.layers@[k].is_sent) by {
                if k != rel {
                    assert(self.layers@[k] == pre[k]);
                }
            }
            assert forall|k: int, i: int| 0 <= k < pre.len() && 0 <= i < self.layers@[k].nodes@.len() implies has_node(
                pre[k].nodes@,
                (#[trigger] self.layers@[k].nodes@[i]).0,
            ) || (!pre[k].is_sent && pre[k].node_id_counter.0 < usize::MAX && self.layers@[k].nodes@[i].0.0 >= pre[k].node_id_counter.0) by {
                if k != rel {
                    assert(self.layers@[k] == pre[k]);
                    assert(has_node(pre[k].nodes@, pre[k].nodes@[i].0));
                } else if i < lpre.nodes@.len() {
                    assert(self.layers@[k].nodes@[i] == lpre.nodes@[i]);
                    assert(has_node(pre[k].nodes@, pre[k].nodes@[i].0));
                }
            }
            assert forall|k: int, i: int| 0 <= k < pre.len() && 0 <= i < pre[k].nodes@.len() implies has_node(
                self.layers@[k].nodes@,
                (#[trigger] pre[k].nodes@[i]).0,
            ) by {
                if k != rel {
                    assert(self.layers@[k] == pre[k]);
                } else {
                    assert(self.layers@[k].nodes@[i] == lpre.nodes@[i]);
                }
            }
            assert(layers_grow(pre, self.layers@));
            lemma_grow_trans(old(self).layers@, pre, self.layers@);
        }
        self.node_count = self.node_count + 1;
        Some(AbsoluteNodeId { layer_id: l_id(&self.layers[rel]), node_id })
    }
}

/// The id of a layer.
fn l_id<const N: usize, S: Strategy<N>>(l: &StrategyTreeLayer<N, S>) -> (r: AbsoluteLayerId)
    ensures
        r == l.layer_id_spec(),
{
    l.absolute_layer_id
}

impl<const N: usize, S: Strategy<N>> StrategyTreeLayer<N, S> {
    /// The id of the first node of a layer that has one.
    fn first_node_id(&self) -> (r: RelativeNodeId)
        requires
            self.nodes_spec().len() >= 1,
        ensures
            r == self.nodes_spec()[0].0,
    {
        self.nodes[0].0
    }
}


impl<const N: usize, S: Strategy<N>> StrategyTreeLayer<N, S> {
    /// Removes from node `node_id` the outcome `branch` of its command and returns the node it
    /// led to.
    fn take_child(&mut self, node_id: RelativeNodeId, branch: AbsolutePathId, Ghost(next): Ghost<AbsoluteLayerId>) -> (r: Result<AbsoluteNodeId, PruneError>)
        requires
            old(self).wf(),
        ensures
            final(self).wf(),
            final(self).layer_id_spec() == old(self).layer_id_spec(),
            final(self).eq_command_spec() == old(self).eq_command_spec(),
            final(self).node_count_spec() == old(self).node_count_spec(),
            final(self).nodes_spec().len() == old(self).nodes_spec().len(),
            final(self).is_sent_spec() == old(self).is_sent_spec(),
            final(self).fully_expanded_spec() == old(self).fully_expanded_spec(),
            final(self).next_id_spec() == old(self).next_id_spec(),
            old(self).children_in(next) ==> final(self).children_in(next),
            old(self).children_in(next) ==> (r matches Ok(c) ==> c.layer_spec() == next),
            forall|j: int| 0 <= j < final(self).nodes_spec().len() ==> (#[trigger] final(self).nodes_spec()[j]).0 == old(self).nodes_spec()[j].0,
            !has_node(old(self).nodes_spec(), node_id) ==> r is Err && final(self).nodes_spec() == old(self).nodes_spec() && *final(self)
                == *old(self),
            r matches Err(PruneError::UnknownNode(_)) ==> *final(self) == *old(self),
            has_node(old(self).nodes_spec(), node_id) ==> {
                let i = node_index(old(self).nodes_spec(), node_id);
                let o = old(self).nodes_spec()[i].1;
                let f = final(self).nodes_spec()[i].1;
                &&& forall|j: int|
                    0 <= j < final(self).nodes_spec().len() && j != i ==> #[trigger] final(self).nodes_spec()[j] == old(self).nodes_spec()[j]
                &&& f.as_branch_from_parent == o.as_branch_from_parent
                &&& f.on_basis_of_world == o.on_basis_of_world
                &&& forall|b2: PathLocalOutcomeId, c2: AbsoluteNodeId|
                    b2 != branch.branch && leads_to(node_outcomes(o), b2, c2) ==> #[trigger] leads_to(node_outcomes(f), b2, c2)
                &&& (r matches Ok(c) ==> leads_to(node_outcomes(o), branch.branch, c))
                &&& ((exists|c: AbsoluteNodeId| leads_to(node_outcomes(o), branch.branch, c)) ==> r is Ok)
                &&& forall|w: int| 0 <= w < node_outcomes(f).len() ==> node_outcomes(o).contains(#[trigger] node_outcomes(f)[w])
            },
    {
        let i = match find_node(&self.nodes, node_id) {
            None => {
                return Err(PruneError::UnknownNode(AbsoluteNodeId { layer_id: self.absolute_layer_id, node_id }));
            },
            Some(i) => i,
        };
        let ghost pre = self.nodes@;
        let (id, n) = self.nodes.remove(i);
        let ghost old_node = n;
        let StrategyTreeNode { on_basis_of_world, on_basis_of_state, applied_strategy, as_branch_from_parent } = n;
        let (applied, r) = match applied_strategy {
            Some(Ok(a)) => {
                let NodeAction { command, potential_outcomes } = a;
                let ghost orig = potential_outcomes@;
                let mut children = potential_outcomes;
                let mut pos: Option<usize> = None;
                let mut k: usize = 0;
                while k < children.len()
                    invariant
                        k <= children.len(),
                        children@ == orig,
                        pos matches Some(p) ==> p < children.len() && orig[p as int].0 == branch.branch && forall|j: int|
                            0 <= j < p ==> (#[trigger] orig[j]).0 != branch.branch,
                        pos is None ==> forall|j: int| 0 <= j < k ==> (#[trigger] orig[j]).0 != branch.branch,
                    decreases children.len() - k,
                {
                    if pos.is_none() && children[k].0 == branch.branch {
                        pos = Some(k);
                    }
                    k = k + 1;
                }
                let r = match pos {
                    Some(p) => {
                        let (_, child) = children.remove(p);
                        proof {
                            assert(child == orig[p as int].1);
                            assert(orig[p as int] == (branch.branch, child));
                            assert(leads_to(orig, branch.branch, child));
                            assert forall|b2: PathLocalOutcomeId, c2: AbsoluteNodeId|
                                b2 != branch.branch && leads_to(orig, b2, c2) implies #[trigger] leads_to(children@, b2, c2) by {
                                lemma_leads_to_remove(orig, p as int, branch.branch, b2, c2);
                            }
                        }
                        Ok(child)
                    },
                    None => {
                        proof {
                            assert forall|c: AbsoluteNodeId| !leads_to(orig, branch.branch, c) by {
                                if leads_to(orig, branch.branch, c) {
                                    let q = choose|q: int| #![trigger orig[q]] 0 <= q < orig.len() && orig[q] == (branch.branch, c)
                                        && forall|j: int| 0 <= j < q ==> (#[trigger] orig[j]).0 != branch.branch;
                                    assert(orig[q].0 != branch.branch);
                                }
                            }
                        }
                        Err(PruneError::SourceDoesNotHaveThisChild(branch))
                    },
                };
                proof {
                    assert forall|w: int| 0 <= w < children@.len() implies orig.contains(#[trigger] children@[w]) by {
                        if let Some(p) = pos {
                            if w < p {
                                assert(children@[w] == orig[w]);
                            } else {
                                assert(children@[w] == orig[w + 1]);
                            }
                        } else {
                            assert(children@[w] == orig[w]);
                        }
                    }
                    if forall|q: int| 0 <= q < orig.len() ==> (#[trigger] orig[q]).1.layer_spec() == next {
                        assert forall|m: int| 0 <= m < children@.len() implies (#[trigger] children@[m]).1.layer_spec() == next by {
                            if let Some(p) = pos {
                                if m < p {
                                    assert(children@[m] == orig[m]);
                                } else {
                                    assert(children@[m] == orig[m + 1]);
                                }
                            } else {
                                assert(children@[m] == orig[m]);
                            }
                        }
                    }
                }
                (Some(Ok(NodeAction { command, potential_outcomes: children })), r)
            },
            other => (other, Err(PruneError::SourceHasNoChildren(branch.from_node))),
        };
        let new_node = StrategyTreeNode { on_basis_of_world, on_basis_of_state, applied_strategy: applied, as_branch_from_parent };
        self.nodes.insert(i, (id, new_node));
        proof {
            assert forall|a: int, b: int| 0 <= a < b < self.nodes@.len() implies self.nodes@[a].0 != self.nodes@[b].0 by {
                assert(self.nodes@[a].0 == pre[a].0 && self.nodes@[b].0 == pre[b].0);
            }
            assert forall|j: int| 0 <= j < self.nodes@.len() implies (#[trigger] self.nodes@[j]).0 == pre[j].0 by {}
            assert forall|j: int| 0 <= j < self.nodes@.len() && j != i implies #[trigger] self.nodes@[j] == pre[j] by {}
            if old(self).children_in(next) {
                assert(node_children_in(pre[i as int].1, next));
                assert forall|j: int| 0 <= j < self.nodes@.len() implies node_children_in(#[trigger] self.nodes@[j].1, next) by {
                    if j != i {
                        assert(self.nodes@[j] == pre[j]);
                    }
                }
            }
        }
        r
    }
}

impl<const N: usize, S: Strategy<N> + Clone + FromConfig<N>> StrategyTree<N, S> {
    /// Removes node `node` from its layer, without touching the links to it; returns the nodes
    /// its outcomes led to.
    fn delete_node_no_clean(&mut self, node: AbsoluteNodeId) -> (r: Result<Vec<AbsoluteNodeId>, PruneError>)
        requires
            old(self).wf(),
        ensures
            final(self).wf(),
            final(self).first_layer_absolute_id == old(self).first_layer_absolute_id,
            final(self).highest_sent_layer == old(self).highest_sent_layer,
            final(self).highest_eq_layer == old(self).highest_eq_layer,
            final(self).highest_full_layer == old(self).highest_full_layer,
            final(self).layers@.len() == old(self).layers@.len(),
            r is Ok ==> final(self).node_count == old(self).node_count - 1,
            r is Err ==> final(self).node_count == old(self).node_count,
            node.layer_spec().0 > old(self).first_layer_absolute_id.0 ==> final(self).layers@[0] == old(self).layers@[0],
            r matches Ok(v) ==> forall|k: int| 0 <= k < v@.len() ==> (#[trigger] v@[k]).layer_spec().0 == node.layer_spec().0 + 1,
            forall|i: int| 0 <= i < old(self).layers@.len() ==> (#[trigger] final(self).layers@[i]).eq_command_spec()
                == old(self).layers@[i].eq_command_spec(),
            !layers_have(old(self).layers@, old(self).first_layer_absolute_id, node) ==> r is Err && final(self).layers@
                == old(self).layers@,
            counters_kept(final(self).layers@, old(self).layers@),
            layers_have(old(self).layers@, old(self).first_layer_absolute_id, node) ==> {
                let k = node.layer_id.0 - old(self).first_layer_absolute_id.0;
                let s = old(self).layers@[k].nodes@;
                let q = node_index(s, node.node_id);
                &&& final(self).layers@[k].nodes@ == s.remove(q)
                &&& forall|m: int| 0 <= m < final(self).layers@.len() && m != k ==> #[trigger] final(self).layers@[m] == old(self).layers@[m]
                &&& r matches Ok(v) && v@ == node_outcomes(s[q].1).map_values(|p: (PathLocalOutcomeId, AbsoluteNodeId)| p.1)
            },
    {
        let li = match self.layer_index(node.layer_id) {
            None => {
                proof {
                    let k = node.layer_id.0 - self.first_layer_absolute_id.0;
                    if 0 <= k < self.layers@.len() {
                        assert(self.layers@[k].layer_id_spec().0 == node.layer_id.0);
                    }
                }
                return Err(PruneError::UnknownNode(node));
            },
            Some(i) => i,
        };
        let ghost pre = self.layers@;
        let mut l = self.layers.remove(li);
        let ghost lpre = l;
        let r = l.delete_node(node.node_id);
        proof {
            if !has_node(lpre.nodes_spec(), node.node_id) {
                assert(l == lpre);
            }
            if r is Ok {
                lemma_count_nonneg(pre, li as int);
                let next = AbsoluteLayerId((self.first_layer_absolute_id.0 + li + 1) as usize);
                assert(lpre.children_in(next));
                let idx = node_index(lpre.nodes_spec(), node.node_id);
                assert(node_children_in(lpre.nodes_spec()[idx].1, next));
                assert forall|j: int| 0 <= j < l.nodes_spec().len() implies node_children_in(#[trigger] l.nodes_spec()[j].1, next) by {
                    if j < idx {
                        assert(l.nodes_spec()[j] == lpre.nodes_spec()[j]);
                    } else {
                        assert(l.nodes_spec()[j] == lpre.nodes_spec()[j + 1]);
                    }
                }
            }
        }
        self.layers.insert(li, l);
        proof {
            assert(self.layers@ =~= pre.update(li as int, l));
            lemma_count_update(pre, li as int, l);
            assert forall|i: int| 0 <= i < self.layers@.len() implies (#[trigger] self.layers@[i]).wf()
                && self.layers@[i].layer_id_spec().0 == self.first_layer_absolute_id.0 + i by {
                if i != li {
                    assert(self.layers@[i] == pre[i]);
                }
            }
            assert forall|i: int| self.highest_sent_layer < i <= self.highest_eq_layer implies (
            #[trigger] self.layers@[i]).eq_command_spec() is Some by {
                if i != li {
                    assert(self.layers@[i] == pre[i]);
                }
            }
            assert forall|k: int| 0 <= k < self.layers@.len() implies (#[trigger] self.layers@[k]).node_id_counter
                == pre[k].node_id_counter && self.layers@[k].is_sent == pre[k].is_sent by {
                if k != li {
                    assert(self.layers@[k] == pre[k]);
                }
            }
        }
        if r.is_ok() {
            self.node_count = self.node_count - 1;
        }
        r
    }

    /// Removes the outcome `branch` from its node and deletes the node it led to with all of
    /// that node's descendants.
    fn prune_branch(&mut self, branch: AbsolutePathId) -> (r: Result<(), PruneError>)
        requires
            old(self).wf(),
        ensures
            final(self).wf(),
            final(self).layers@[0].nodes_spec().len() == old(self).layers@[0].nodes_spec().len(),
            final(self).first_layer_absolute_id == old(self).first_layer_absolute_id,
            final(self).highest_sent_layer == old(self).highest_sent_layer,
            final(self).highest_eq_layer == old(self).highest_eq_layer,
            final(self).highest_full_layer == old(self).highest_full_layer,
            final(self).layers@.len() == old(self).layers@.len(),
            forall|i: int| 0 <= i < old(self).layers@.len() ==> (#[trigger] final(self).layers@[i]).eq_command_spec()
                == old(self).layers@[i].eq_command_spec(),
            ids_within(final(self).layers@, old(self).layers@),
            counters_kept(final(self).layers@, old(self).layers@),
            r matches Err(PruneError::UnknownNode(_)) ==> final(self).layers@ == old(self).layers@,
            forall|y: AbsoluteNodeId|
                #[trigger] layers_have(final(self).layers@, final(self).first_layer_absolute_id, y) ==> layers_have(
                    old(self).layers@,
                    old(self).first_layer_absolute_id,
                    y,
                ) && layers_node(final(self).layers@, final(self).first_layer_absolute_id, y).as_branch_from_parent == layers_node(
                    old(self).layers@,
                    old(self).first_layer_absolute_id,
                    y,
                ).as_branch_from_parent,
            layers_linked_down(old(self).layers@, old(self).first_layer_absolute_id) ==> layers_linked_down(
                final(self).layers@,
                final(self).first_layer_absolute_id,
            ),
            layers_linked_down(old(self).layers@, old(self).first_layer_absolute_id) ==> forall|y: AbsoluteNodeId|
                layers_have(old(self).layers@, old(self).first_layer_absolute_id, y) && !#[trigger] layers_have(
                    final(self).layers@,
                    final(self).first_layer_absolute_id,
                    y,
                ) ==> exists|c: AbsoluteNodeId|
                    leads_to(
                        node_outcomes(layers_node(old(self).layers@, old(self).first_layer_absolute_id, branch.from_node)),
                        branch.branch,
                        c,
                    ) && descends(old(self).layers@, old(self).first_layer_absolute_id, y, c),
            (layers_linked(old(self).layers@, old(self).first_layer_absolute_id) && layers_have(
                old(self).layers@,
                old(self).first_layer_absolute_id,
                branch.from_node,
            ) && (exists|c: AbsoluteNodeId|
                leads_to(
                    node_outcomes(layers_node(old(self).layers@, old(self).first_layer_absolute_id, branch.from_node)),
                    branch.branch,
                    c,
                ))) ==> r is Ok,
            (layers_linked(old(self).layers@, old(self).first_layer_absolute_id) && r is Ok) ==> {
                &&& layers_linked(final(self).layers@, final(self).first_layer_absolute_id)
                &&& forall|c: AbsoluteNodeId|
                    leads_to(
                        node_outcomes(layers_node(old(self).layers@, old(self).first_layer_absolute_id, branch.from_node)),
                        branch.branch,
                        c,
                    ) ==> !layers_have(final(self).layers@, final(self).first_layer_absolute_id, c)
            },
    {
        let source = branch.from_node;
        let ghost first = self.first_layer_absolute_id;
        let ghost pre = self.layers@;
        let ghost linked = layers_linked(pre, first);
        proof {
            assert forall|k: int, i: int| 0 <= k < pre.len() && k < pre.len() && 0 <= i < pre[k].nodes@.len() implies #[trigger] has_node(
                pre[k].nodes@,
                pre[k].nodes@[i].0,
            ) by {}
        }
        let li = match self.layer_index(source.layer_id) {
            None => {
                proof {
                    let k = source.layer_id.0 - first.0;
                    if 0 <= k < pre.len() {
                        assert(pre[k].layer_id_spec().0 == source.layer_id.0);
                    }
                }
                return Err(PruneError::UnknownNode(source));
            },
            Some(i) => i,
        };
        proof {
            assert(pre[li as int].layer_id_spec().0 == first.0 + li);
            assert(li == source.layer_id.0 - first.0);
        }
        let mut l = self.layers.remove(li);
        let ghost lpre = l;
        let taken = l.take_child(source.node_id, branch, Ghost(AbsoluteLayerId((self.first_layer_absolute_id.0 + li + 1) as usize)));
        self.layers.insert(li, l);
        proof {
            assert(lpre == pre[li as int]);
            assert(self.layers@ =~= pre.update(li as int, l));
            lemma_count_update(pre, li as int, l);
            assert forall|i: int| 0 <= i < self.layers@.len() implies (#[trigger] self.layers@[i]).wf()
                && self.layers@[i].layer_id_spec().0 == self.first_layer_absolute_id.0 + i by {
                if i != li {
                    assert(self.layers@[i] == pre[i]);
                }
            }
            assert forall|i: int| self.highest_sent_layer < i <= self.highest_eq_layer implies (
            #[trigger] self.layers@[i]).eq_command_spec() is Some by {
                if i != li {
                    assert(self.layers@[i] == pre[i]);
                }
            }
            assert forall|k: int, i: int|
                0 <= k < self.layers@.len() && k < pre.len() && 0 <= i < self.layers@[k].nodes@.len() implies #[trigger] has_node(
                pre[k].nodes@,
                self.layers@[k].nodes@[i].0,
            ) by {
                if k != li {
                    assert(self.layers@[k] == pre[k]);
                } else {
                    assert(self.layers@[k].nodes@[i].0 == pre[k].nodes@[i].0);
                }
            }
            assert(layers_numbered(self.layers@, first));
            assert(layers_numbered(pre, first));
            assert forall|k: int| 0 <= k < self.layers@.len() implies (#[trigger] self.layers@[k]).node_id_counter
                == pre[k].node_id_counter && self.layers@[k].is_sent == pre[k].is_sent by {
                if k != li {
                    assert(self.layers@[k] == pre[k]);
                }
            }
            if taken matches Err(PruneError::UnknownNode(_)) {
                assert(l == lpre);
                assert(self.layers@ =~= pre);
            }
            if has_node(lpre.nodes_spec(), source.node_id) {
                lemma_take_frame(pre, self.layers@, first, source);
            } else {
                assert(l == lpre);
                assert(self.layers@ =~= pre);
            }
            assert(layers_numbered(old(self).layers@, first));
            assert forall|m: int| 0 <= m < pre.len() implies (#[trigger] pre[m]).children_in(AbsoluteLayerId((first.0 + m + 1) as usize)) by {}
        }
        let first_delete_node = match taken {
            Err(e) => {
                return Err(e);
            },
            Ok(c) => c,
        };
        let ghost x = first_delete_node;
        let mut to_delete: Vec<AbsoluteNodeId> = Vec::new();
        to_delete.push(first_delete_node);
        proof {
            if linked {
                assert(to_delete@ == seq![x]);
                lemma_take_pending(pre, self.layers@, first, source, branch.branch, x);
            }
            assert(to_delete@[0] == x);
            assert(lpre.children_in(AbsoluteLayerId((first.0 + li + 1) as usize)));
            assert(x.layer_spec().0 == first.0 + li + 1);
        }
        while to_delete.len() > 0
            invariant
                self.wf(),
                self.layers@[0].nodes_spec().len() == old(self).layers@[0].nodes_spec().len(),
                forall|k: int| 0 <= k < to_delete@.len() ==> (#[trigger] to_delete@[k]).layer_spec().0 > self.first_layer_absolute_id.0,
                self.first_layer_absolute_id == old(self).first_layer_absolute_id,
                self.highest_sent_layer == old(self).highest_sent_layer,
                self.highest_eq_layer == old(self).highest_eq_layer,
                self.highest_full_layer == old(self).highest_full_layer,
                self.layers@.len() == old(self).layers@.len(),
                forall|i: int| 0 <= i < old(self).layers@.len() ==> (#[trigger] self.layers@[i]).eq_command_spec()
                    == old(self).layers@[i].eq_command_spec(),
                first == old(self).first_layer_absolute_id,
                pre == old(self).layers@,
                ids_within(self.layers@, pre),
                counters_kept(self.layers@, pre),
                linked == layers_linked(pre, first),
                linked ==> pending_links(self.layers@, first, to_delete@),
                !layers_have(self.layers@, first, x) || to_delete@.contains(x),
                leads_to(node_outcomes(layers_node(pre, first, branch.from_node)), branch.branch, x),
                layers_numbered(pre, first),
                forall|m: int| 0 <= m < pre.len() ==> (#[trigger] pre[m]).children_in(AbsoluteLayerId((first.0 + m + 1) as usize)),
                source == branch.from_node,
                x.layer_id.0 == source.layer_id.0 + 1,
                forall|y: AbsoluteNodeId|
                    #[trigger] layers_have(self.layers@, first, y) ==> layers_have(pre, first, y) && layers_node(
                        self.layers@,
                        first,
                        y,
                    ).as_branch_from_parent == layers_node(pre, first, y).as_branch_from_parent && (y != source ==> layers_node(
                        self.layers@,
                        first,
                        y,
                    ) == layers_node(pre, first, y)),
                layers_linked_down(pre, first) ==> layers_linked_down(self.layers@, first),
                layers_linked_down(pre, first) ==> forall|y: AbsoluteNodeId|
                    layers_have(pre, first, y) && !#[trigger] layers_have(self.layers@, first, y) ==> descends(pre, first, y, x),
                layers_linked_down(pre, first) ==> forall|q: int|
                    0 <= q < to_delete@.len() && layers_have(pre, first, #[trigger] to_delete@[q]) ==> descends(pre, first, to_delete@[q], x),
            decreases self.node_count, to_delete.len(),
        {
            let ghost before = self.layers@;
            let ghost td_all = to_delete@;
            let node_to_delete = to_delete.pop().unwrap();
            let ghost td = to_delete@;
            proof {
                assert(td.push(node_to_delete) =~= td_all);
            }
            proof {
                assert(layers_numbered(before, first));
            }
            match self.delete_node_no_clean(node_to_delete) {
                Ok(mut children) => {
                    let ghost ch = children@;
                    to_delete.append(&mut children);
                    proof {
                        assert(to_delete@ == td + ch);
                        assert(forall|k: int| 0 <= k < td.len() ==> td[k] == (td + ch)[k]);
                        assert forall|k: int| 0 <= k < to_delete@.len() implies (#[trigger] to_delete@[k]).layer_spec().0
                            > self.first_layer_absolute_id.0 by {
                            if k < td.len() {
                                assert(to_delete@[k] == td[k]);
                            } else {
                                assert(to_delete@[k] == ch[k - td.len()]);
                            }
                        }
                        lemma_delete_pending(before, self.layers@, first, node_to_delete, td, ch, pre, linked);
                        let z = node_to_delete;
                        assert(layers_have(before, first, z));
                        if layers_linked_down(pre, first) {
                            assert(td_all[td_all.len() - 1] == z);
                            assert(descends(pre, first, z, x));
                            lemma_descends_layer(pre, first, z, x);
                            assert(z != source);
                            assert(layers_node(before, first, z) == layers_node(pre, first, z));
                            assert forall|y: AbsoluteNodeId|
                                layers_have(pre, first, y) && !#[trigger] layers_have(self.layers@, first, y) implies descends(pre, first, y, x) by {
                                if y != z {
                                    assert(!layers_have(before, first, y));
                                }
                            }
                            assert forall|q: int|
                                0 <= q < to_delete@.len() && layers_have(pre, first, #[trigger] to_delete@[q]) implies descends(
                                pre,
                                first,
                                to_delete@[q],
                                x,
                            ) by {
                                if q < td.len() {
                                    assert(to_delete@[q] == td_all[q]);
                                } else {
                                    let w = q - td.len();
                                    assert(to_delete@[q] == ch[w]);
                                    assert(ch[w] == node_outcomes(layers_node(pre, first, z))[w].1);
                                    lemma_child_descends(pre, first, z, x, w);
                                }
                            }
                        }
                        if x != node_to_delete && layers_have(self.layers@, first, x) {
                            let w = choose|w: int| 0 <= w < td.push(node_to_delete).len() && td.push(node_to_delete)[w] == x;
                            assert(w < td.len());
                            assert(to_delete@[w] == x);
                        }
                    }
                },
                Err(_) => {
                    proof {
                        assert(self.layers@ == before);
                        if linked {
                            assert forall|k: int, i: int| 1 <= k < before.len() && 0 <= i < before[k].nodes@.len() implies node_linked(
                                before,
                                first,
                                k,
                                #[trigger] before[k].nodes@[i],
                            ) || td.contains(AbsoluteNodeId { layer_id: before[k].absolute_layer_id, node_id: before[k].nodes@[i].0 }) by {
                                let ae = AbsoluteNodeId { layer_id: before[k].absolute_layer_id, node_id: before[k].nodes@[i].0 };
                                if td.push(node_to_delete).contains(ae) && !node_linked(before, first, k, before[k].nodes@[i]) {
                                    if ae == node_to_delete {
                                        assert(has_node(before[k].nodes@, ae.node_id));
                                        assert(layers_have(before, first, node_to_delete));
                                    } else {
                                        let w = choose|w: int| 0 <= w < td.push(node_to_delete).len() && td.push(node_to_delete)[w] == ae;
                                        assert(td[w] == ae);
                                    }
                                }
                            }
                        }
                        if layers_have(self.layers@, first, x) {
                            let w = choose|w: int| 0 <= w < td.push(node_to_delete).len() && td.push(node_to_delete)[w] == x;
                            assert(w < td.len());
                            assert(to_delete@[w] == x);
                        }
                        if layers_linked_down(pre, first) {
                            assert forall|q: int|
                                0 <= q < to_delete@.len() && layers_have(pre, first, #[trigger] to_delete@[q]) implies descends(
                                pre,
                                first,
                                to_delete@[q],
                                x,
                            ) by {
                                assert(to_delete@[q] == td_all[q]);
                            }
                        }
                    }
                },
            }
        }
        proof {
            if linked {
                assert forall|k: int, i: int| 1 <= k < self.layers@.len() && 0 <= i < self.layers@[k].nodes@.len() implies #[trigger] node_linked(
                    self.layers@,
                    first,
                    k,
                    self.layers@[k].nodes@[i],
                ) by {
                    assert(!to_delete@.contains(AbsoluteNodeId { layer_id: self.layers@[k].absolute_layer_id, node_id: self.layers@[k].nodes@[i].0 }));
                }
                assert forall|c: AbsoluteNodeId|
                    leads_to(node_outcomes(layers_node(pre, first, branch.from_node)), branch.branch, c) implies !layers_have(
                    self.layers@,
                    first,
                    c,
                ) by {
                    lemma_leads_to_unique(node_outcomes(layers_node(pre, first, branch.from_node)), branch.branch, c, x);
                }
            }
            if layers_linked_down(pre, first) {
                assert forall|y: AbsoluteNodeId|
                    layers_have(pre, first, y) && !#[trigger] layers_have(self.layers@, first, y) implies exists|c: AbsoluteNodeId|
                    leads_to(node_outcomes(layers_node(pre, first, branch.from_node)), branch.branch, c) && descends(pre, first, y, c) by {
                    assert(descends(pre, first, y, x));
                }
            }
        }
        Ok(())
    }

    /// Deletes node `node_and_children` with all its descendants, unlinking it from its parent.
    fn prune_node(&mut self, node_and_children: AbsoluteNodeId) -> (r: Result<(), PruneError>)
        requires
            old(self).wf(),
        ensures
            final(self).wf(),
            final(self).layers@[0].nodes_spec().len() == old(self).layers@[0].nodes_spec().len(),
            final(self).first_layer_absolute_id == old(self).first_layer_absolute_id,
            final(self).highest_sent_layer == old(self).highest_sent_layer,
            final(self).highest_eq_layer == old(self).highest_eq_layer,
            final(self).highest_full_layer == old(self).highest_full_layer,
            final(self).layers@.len() == old(self).layers@.len(),
            forall|i: int| 0 <= i < old(self).layers@.len() ==> (#[trigger] final(self).layers@[i]).eq_command_spec()
                == old(self).layers@[i].eq_command_spec(),
            ids_within(final(self).layers@, old(self).layers@),
            counters_kept(final(self).layers@, old(self).layers@),
            r matches Err(PruneError::UnknownNode(_)) ==> final(self).layers@ == old(self).layers@,
            (layers_linked(old(self).layers@, old(self).first_layer_absolute_id) && r is Ok) ==> layers_linked(
                final(self).layers@,
                final(self).first_layer_absolute_id,
            ),
            forall|y: AbsoluteNodeId|
                #[trigger] layers_have(final(self).layers@, final(self).first_layer_absolute_id, y) ==> layers_have(
                    old(self).layers@,
                    old(self).first_layer_absolute_id,
                    y,
                ) && layers_node(final(self).layers@, final(self).first_layer_absolute_id, y).as_branch_from_parent == layers_node(
                    old(self).layers@,
                    old(self).first_layer_absolute_id,
                    y,
                ).as_branch_from_parent,
            layers_linked_down(old(self).layers@, old(self).first_layer_absolute_id) ==> layers_linked_down(
                final(self).layers@,
                final(self).first_layer_absolute_id,
            ),
            (layers_linked_down(old(self).layers@, old(self).first_layer_absolute_id) && layers_linked(
                old(self).layers@,
                old(self).first_layer_absolute_id,
            ) && node_and_children.layer_id.0 > old(self).first_layer_absolute_id.0) ==> forall|y: AbsoluteNodeId|
                layers_have(old(self).layers@, old(self).first_layer_absolute_id, y) && !#[trigger] layers_have(
                    final(self).layers@,
                    final(self).first_layer_absolute_id,
                    y,
                ) ==> descends(old(self).layers@, old(self).first_layer_absolute_id, y, node_and_children),
            !layers_have(old(self).layers@, old(self).first_layer_absolute_id, node_and_children) ==> (r matches Err(
                PruneError::UnknownNode(_),
            )) && *final(self) == *old(self),
            (layers_linked(old(self).layers@, old(self).first_layer_absolute_id) && layers_have(
                old(self).layers@,
                old(self).first_layer_absolute_id,
                node_and_children,
            ) && node_and_children.layer_id.0 > old(self).first_layer_absolute_id.0) ==> {
                &&& r is Ok
                &&& layers_linked(final(self).layers@, final(self).first_layer_absolute_id)
                &&& !layers_have(final(self).layers@, final(self).first_layer_absolute_id, node_and_children)
            },
    {
        let ghost first = self.first_layer_absolute_id;
        let ghost pre = self.layers@;
        proof {
            assert forall|k: int, i: int| 0 <= k < pre.len() && k < pre.len() && 0 <= i < pre[k].nodes@.len() implies #[trigger] has_node(
                pre[k].nodes@,
                pre[k].nodes@[i].0,
            ) by {}
            assert forall|k: int| 0 <= k < pre.len() implies (#[trigger] pre[k]).node_id_counter == pre[k].node_id_counter
                && pre[k].is_sent == pre[k].is_sent by {}
        }
        let branch = match self.node(node_and_children) {
            None => {
                return Err(PruneError::UnknownNode(node_and_children));
            },
            Some(n) => match n.as_branch_from_parent {
                None => {
                    proof {
                        if layers_linked(pre, first) && node_and_children.layer_id.0 > first.0 {
                            let k = node_and_children.layer_id.0 - first.0;
                            let i = node_index(pre[k].nodes@, node_and_children.node_id);
                            assert(node_linked(pre, first, k, pre[k].nodes@[i]));
                        }
                    }
                    return Err(PruneError::CannotDeleteRoot(node_and_children));
                },
                Some(b) => b,
            },
        };
        proof {
            if layers_linked(pre, first) && node_and_children.layer_id.0 > first.0 {
                let k = node_and_children.layer_id.0 - first.0;
                let i = node_index(pre[k].nodes@, node_and_children.node_id);
                assert(node_linked(pre, first, k, pre[k].nodes@[i]));
                assert(pre[k].absolute_layer_id.0 == first.0 + k);
                assert(AbsoluteNodeId { layer_id: pre[k].absolute_layer_id, node_id: pre[k].nodes@[i].0 } == node_and_children);
                assert(leads_to(node_outcomes(layers_node(pre, first, branch.from_node)), branch.branch, node_and_children));
            }
        }
        let r = self.prune_branch(branch);
        proof {
            if layers_linked_down(pre, first) && layers_linked(pre, first) && node_and_children.layer_id.0 > first.0 {
                assert forall|y: AbsoluteNodeId|
                    layers_have(pre, first, y) && !#[trigger] layers_have(self.layers@, first, y) implies descends(
                    pre,
                    first,
                    y,
                    node_and_children,
                ) by {
                    let c = choose|c: AbsoluteNodeId|
                        leads_to(node_outcomes(layers_node(pre, first, branch.from_node)), branch.branch, c) && descends(pre, first, y, c);
                    lemma_leads_to_unique(node_outcomes(layers_node(pre, first, branch.from_node)), branch.branch, c, node_and_children);
                }
            }
        }
        r
    }

    /// Prunes the outcomes of the command at the root that the mouse's measurements ruled
    /// out, each with everything that follows it.
    pub fn prune_current_command_by_rejection(&mut self, rejections: &RejectedOutcomes) -> (r: Result<(), PruneError>)
        requires
            old(self).wf(),
            old(self).single_root(),
        ensures
            final(self).wf(),
            final(self).single_root(),
            final(self).first_layer_spec() == old(self).first_layer_spec(),
            final(self).highest_sent_spec() == old(self).highest_sent_spec(),
            final(self).highest_eq_spec() == old(self).highest_eq_spec(),
            final(self).highest_full_spec() == old(self).highest_full_spec(),
            final(self).layers_spec().len() == old(self).layers_spec().len(),
    {
        let root = self.root_node();
        let mut k: usize = 0;
        while k < rejections.rejected_outcome_ids.len()
            invariant
                self.wf(),
                self.first_layer_absolute_id == old(self).first_layer_absolute_id,
                self.highest_sent_layer == old(self).highest_sent_layer,
                self.highest_eq_layer == old(self).highest_eq_layer,
                self.highest_full_layer == old(self).highest_full_layer,
                self.layers@.len() == old(self).layers@.len(),
                self.layers@[0].nodes_spec().len() == old(self).layers@[0].nodes_spec().len(),
                old(self).single_root(),
                forall|i: int| 0 <= i < old(self).layers@.len() ==> (#[trigger] self.layers@[i]).eq_command_spec()
                    == old(self).layers@[i].eq_command_spec(),
            decreases rejections.rejected_outcome_ids.len() - k,
        {
            let path_id = AbsolutePathId { from_node: root, branch: rejections.rejected_outcome_ids[k] };
            let res = self.prune_branch(path_id);
            assert(self.layers@[0].nodes_spec().len() == old(self).layers@[0].nodes_spec().len());
            if let Err(e) = res {
                return Err(e);
            }
            k = k + 1;
        }
        Ok(())
    }
}


impl<const N: usize, S: Strategy<N>> StrategyTreeLayer<N, S> {
    /// Sets what the strategy decided at node `node_id`, if the layer has it; whether it did.
    fn set_applied(
        &mut self,
        node_id: RelativeNodeId,
        applied: Result<NodeAction<N>, StrategyEndState>,
        Ghost(next): Ghost<AbsoluteLayerId>,
    ) -> (r: bool)
        requires
            old(self).wf(),
            applied matches Ok(a) ==> forall|k: int|
                0 <= k < a.potential_outcomes@.len() ==> (#[trigger] a.potential_outcomes@[k]).1.layer_spec() == next,
        ensures
            old(self).children_in(next) ==> final(self).children_in(next),
            forall|j: int|
                0 <= j < final(self).nodes_spec().len() ==> (#[trigger] final(self).nodes_spec()[j]).1.on_basis_of_world
                    == old(self).nodes_spec()[j].1.on_basis_of_world,
            final(self).wf(),
            final(self).layer_id_spec() == old(self).layer_id_spec(),
            final(self).eq_command_spec() == old(self).eq_command_spec(),
            final(self).node_count_spec() == old(self).node_count_spec(),
            final(self).nodes_spec().len() == old(self).nodes_spec().len(),
            final(self).is_sent_spec() == old(self).is_sent_spec(),
            final(self).fully_expanded_spec() == old(self).fully_expanded_spec(),
            final(self).next_id_spec() == old(self).next_id_spec(),
            forall|j: int| 0 <= j < final(self).nodes_spec().len() ==> (#[trigger] final(self).nodes_spec()[j]).0 == old(self).nodes_spec()[j].0,
    {
        let i = match find_node(&self.nodes, node_id) {
            None => {
                return false;
            },
            Some(i) => i,
        };
        let ghost pre = self.nodes@;
        let (id, n) = self.nodes.remove(i);
        let StrategyTreeNode { on_basis_of_world, on_basis_of_state, applied_strategy: _, as_branch_from_parent } = n;
        self.nodes.insert(
            i,
            (id, StrategyTreeNode { on_basis_of_world, on_basis_of_state, applied_strategy: Some(applied), as_branch_from_parent }),
        );
        proof {
            if old(self).children_in(next) {
                assert forall|j: int| 0 <= j < self.nodes@.len() implies node_children_in(#[trigger] self.nodes@[j].1, next) by {
                    if j != i {
                        assert(self.nodes@[j] == pre[j]);
                    }
                }
            }
            assert forall|j: int| 0 <= j < self.nodes@.len() implies (#[trigger] self.nodes@[j]).1.on_basis_of_world
                == pre[j].1.on_basis_of_world by {
                if j != i {
                    assert(self.nodes@[j] == pre[j]);
                }
            }
            assert forall|a: int, b: int| 0 <= a < b < self.nodes@.len() implies self.nodes@[a].0 != self.nodes@[b].0 by {
                assert(self.nodes@[a].0 == pre[a].0 && self.nodes@[b].0 == pre[b].0);
            }
            assert forall|j: int| 0 <= j < self.nodes@.len() implies (#[trigger] self.nodes@[j]).0 == pre[j].0 by {}
        }
        true
    }

    /// The ids of the nodes the strategy has not decided on yet.
    fn non_expanded_ids(&self) -> (r: Vec<RelativeNodeId>) {
        let mut out: Vec<RelativeNodeId> = Vec::new();
        let mut j: usize = 0;
        while j < self.nodes.len()
            invariant
                j <= self.nodes.len(),
            decreases self.nodes.len() - j,
        {
            if self.nodes[j].1.applied_strategy.is_none() {
                out.push(self.nodes[j].0);
            }
            j = j + 1;
        }
        out
    }
}

impl<const N: usize, S: Strategy<N> + Clone + FromConfig<N>> StrategyTree<N, S> {
    /// `a` is well formed and keeps the first layer, the sent, equal and full marks, the layers
    /// and the common commands of `o`, possibly with more layers.
    pub closed spec fn keeps_marks(a: Self, o: Self) -> bool {
        &&& a.wf()
        &&& a.first_layer_absolute_id == o.first_layer_absolute_id
        &&& a.highest_sent_layer == o.highest_sent_layer
        &&& a.highest_eq_layer == o.highest_eq_layer
        &&& a.highest_full_layer == o.highest_full_layer
        &&& a.layers@.len() >= o.layers@.len()
        &&& forall|i: int| 0 <= i < o.layers@.len() ==> (#[trigger] a.layers@[i]).eq_command_spec() == o.layers@[i].eq_command_spec()
        &&& a.layers@[0].nodes_spec().len() == o.layers@[0].nodes_spec().len()
        &&& forall|j: int|
            0 <= j < a.layers@[0].nodes_spec().len() ==> (#[trigger] a.layers@[0].nodes_spec()[j]).1.on_basis_of_world
                == o.layers@[0].nodes_spec()[j].1.on_basis_of_world
        &&& layers_grow(o.layers@, a.layers@)
    }

    /// Sets what the strategy decided at node `node_id` of the layer at position `li`.
    fn set_node_applied(&mut self, li: usize, node_id: RelativeNodeId, applied: Result<NodeAction<N>, StrategyEndState>)
        requires
            old(self).wf(),
            li < old(self).layers@.len(),
            applied matches Ok(a) ==> forall|k: int|
                0 <= k < a.potential_outcomes@.len() ==> (#[trigger] a.potential_outcomes@[k]).1.layer_spec().0
                    == old(self).first_layer_absolute_id.0 + li + 1,
        ensures
            Self::keeps_marks(*final(self), *old(self)),
            final(self).layers@.len() == old(self).layers@.len(),
            final(self).node_count == old(self).node_count,
            forall|i: int| 0 <= i < old(self).layers@.len() ==> (#[trigger] final(self).layers@[i]).fully_expanded_spec()
                == old(self).layers@[i].fully_expanded_spec(),
    {
        let ghost pre = self.layers@;
        let mut l = self.layers.remove(li);
        let _ = l.set_applied(node_id, applied, Ghost(AbsoluteLayerId((self.first_layer_absolute_id.0 + li + 1) as usize)));
        self.layers.insert(li, l);
        proof {
            if li != 0 {
                assert(self.layers@[0] == pre[0]);
            }
            assert(self.layers@ =~= pre.update(li as int, l));
            lemma_count_update(pre, li as int, l);
            assert forall|i: int| 0 <= i < self.layers@.len() implies (#[trigger] self.layers@[i]).wf()
                && self.layers@[i].layer_id_spec().0 == self.first_layer_absolute_id.0 + i by {
                if i != li {
                    assert(self.layers@[i] == pre[i]);
                }
            }
            assert forall|i: int| self.highest_sent_layer < i <= self.highest_eq_layer implies (
            #[trigger] self.layers@[i]).eq_command_spec() is Some by {
                if i != li {
                    assert(self.layers@[i] == pre[i]);
                }
            }
            assert forall|i: int| 0 <= i < pre.len() implies (#[trigger] self.layers@[i]).eq_command_spec()
                == pre[i].eq_command_spec() && self.layers@[i].fully_expanded_spec() == pre[i].fully_expanded_spec() by {
                if i != li {
                    assert(self.layers@[i] == pre[i]);
                }
            }
            assert forall|k: int, i: int|
                0 <= k < self.layers@.len() && k < pre.len() && 0 <= i < self.layers@[k].nodes@.len() implies #[trigger] has_node(
                pre[k].nodes@,
                self.layers@[k].nodes@[i].0,
            ) by {
                if k != li {
                    assert(self.layers@[k] == pre[k]);
                }
                assert(self.layers@[k].nodes@[i].0 == pre[k].nodes@[i].0);
            }
            assert forall|k: int| 0 <= k < self.layers@.len() implies (#[trigger] self.layers@[k]).node_id_counter
                == pre[k].node_id_counter && self.layers@[k].is_sent == pre[k].is_sent by {
                if k != li {
                    assert(self.layers@[k] == pre[k]);
                }
            }
            assert forall|k: int, i: int| 0 <= k < pre.len() && 0 <= i < pre[k].nodes@.len() implies has_node(
                self.layers@[k].nodes@,
                (#[trigger] pre[k].nodes@[i]).0,
            ) by {
                if k != li {
                    assert(self.layers@[k] == pre[k]);
                }
                assert(self.layers@[k].nodes@[i].0 == pre[k].nodes@[i].0);
            }
            lemma_grow_from_within(pre, self.layers@);
        }
    }

    /// Lets the strategy decide at node `node_id` and adds a child for every outcome of the
    /// commands it decides on (for a batch of commands, layer after layer). The node is
    /// `NotExpandable` where it has no strategy state, cannot be found, or a command it
    /// decides on cannot be enumerated in its world or its children cannot be added.
    fn try_expand_node(&mut self, node_id: AbsoluteNodeId) -> (r: NodeExpansionResult)
        requires
            old(self).wf(),
        ensures
            Self::keeps_marks(*final(self), *old(self)),
    {
        let goal = self.goal_position;
        let li = match self.layer_index(node_id.layer_id) {
            None => {
                return NodeExpansionResult::NotExpandable;
            },
            Some(i) => i,
        };
        let computed = match self.layers[li].node(node_id.node_id) {
            None => {
                return NodeExpansionResult::NotExpandable;
            },
            Some(node) => {
                if node.applied_strategy.is_some() {
                    return NodeExpansionResult::AlreadyExpanded;
                }
                match &node.on_basis_of_state {
                    None => {
                        return NodeExpansionResult::NotExpandable;
                    },
                    Some(state) => state.next_cmd(&node.on_basis_of_world, &goal),
                }
            },
        };
        let actions = match computed {
            StrategyComputationResult::NotEnoughInformation => {
                return NodeExpansionResult::NotYetExpandable;
            },
            StrategyComputationResult::Computed(Err(e)) => {
                let e2 = e.clone();
                self.set_node_applied(li, node_id.node_id, Err(e));
                return NodeExpansionResult::EndState(e2);
            },
            StrategyComputationResult::Computed(Ok(a)) => a,
        };
        let ComputedActions(action_list) = actions;
        let mut apply_on_node: Vec<AbsoluteNodeId> = Vec::new();
        apply_on_node.push(node_id);
        let mut nodes_created: usize = 0;
        let mut ai: usize = 0;
        while ai < action_list.len()
            invariant
                Self::keeps_marks(*self, *old(self)),
            decreases action_list.len() - ai,
        {
            let action = &action_list[ai];
            let mut new_apply_on_node: Vec<AbsoluteNodeId> = Vec::new();
            let mut pi: usize = 0;
            while pi < apply_on_node.len()
                invariant
                    Self::keeps_marks(*self, *old(self)),
                decreases apply_on_node.len() - pi,
            {
                let parent = apply_on_node[pi];
                let pli = match self.layer_index(parent.layer_id) {
                    None => {
                        return NodeExpansionResult::NotExpandable;
                    },
                    Some(i) => i,
                };
                let basis_world = match self.layers[pli].node(parent.node_id) {
                    None => {
                        return NodeExpansionResult::NotExpandable;
                    },
                    Some(n) => n.on_basis_of_world,
                };
                let cmd_application = match FilteredCommandApplication::try_new(Some(basis_world.0), action.after_command.clone()) {
                    None => {
                        return NodeExpansionResult::NotExpandable;
                    },
                    Some(a) => a,
                };
                let outcomes = cmd_application.potential_outcomes_given_filter().potential_outcomes;
                let mut children: Vec<(PathLocalOutcomeId, AbsoluteNodeId)> = Vec::new();
                let mut oi: usize = 0;
                while oi < outcomes.len()
                    invariant
                        Self::keeps_marks(*self, *old(self)),
                        pli < self.layers@.len(),
                        forall|k: int| 0 <= k < children@.len() ==> (#[trigger] children@[k]).1.layer_spec().0
                            == self.first_layer_absolute_id.0 + pli + 1,
                    decreases outcomes.len() - oi,
                {
                    let (child_path_id, child_world) = outcomes[oi];
                    let path_id = AbsolutePathId { from_node: parent, branch: child_path_id };
                    let child_node = StrategyTreeNode::new_leaf(child_world, action.next_strategy_state.clone(), path_id);
                    let child_node_id = match self.add_node(child_node, pli + 1) {
                        None => {
                            return NodeExpansionResult::NotExpandable;
                        },
                        Some(c) => c,
                    };
                    if nodes_created < usize::MAX {
                        nodes_created = nodes_created + 1;
                    }
                    new_apply_on_node.push(child_node_id);
                    children.push((child_path_id, child_node_id));
                    oi = oi + 1;
                }
                let action_here = NodeAction { command: cmd_application, potential_outcomes: children };
                self.set_node_applied(pli, parent.node_id, Ok(action_here));
                pi = pi + 1;
            }
            apply_on_node = new_apply_on_node;
            ai = ai + 1;
        }
        NodeExpansionResult::Expanded(nodes_created)
    }

    /// Expands the tree layer after layer, from the lowest layer that is not fully expanded,
    /// until the desired depth or the node budget is reached (a node budget only stops it once
    /// the tree has a few full layers). A layer with a node that cannot be expanded yet is
    /// expanded as far as possible but not counted as full, and neither is any layer after it.
    fn expand_fully(&mut self) -> (r: Result<TreeExpansionSuccess, TreeExpansionError>)
        requires
            old(self).wf(),
        ensures
            final(self).wf(),
            final(self).first_layer_absolute_id == old(self).first_layer_absolute_id,
            final(self).highest_sent_layer == old(self).highest_sent_layer,
            final(self).highest_eq_layer == old(self).highest_eq_layer,
            final(self).highest_full_layer >= old(self).highest_full_layer,
            final(self).layers@.len() >= old(self).layers@.len(),
            forall|i: int| 0 <= i < old(self).layers@.len() ==> (#[trigger] final(self).layers@[i]).eq_command_spec()
                == old(self).layers@[i].eq_command_spec(),
            final(self).layers@[0].nodes_spec().len() == old(self).layers@[0].nodes_spec().len(),
            forall|j: int|
                0 <= j < final(self).layers@[0].nodes_spec().len() ==> (#[trigger] final(self).layers@[0].nodes_spec()[j]).1.on_basis_of_world
                    == old(self).layers@[0].nodes_spec()[j].1.on_basis_of_world,
            layers_grow(old(self).layers@, final(self).layers@),
    {
        proof {
            lemma_grow_refl(self.layers@);
        }
        let min_layer: usize = 2;
        let node_budget = if self.config.max_nodes > self.node_count {
            self.config.max_nodes - self.node_count
        } else {
            0
        };
        let full = self.highest_full_layer;
        let start = if self.layers[full].is_fully_expanded {
            full + 1
        } else {
            full
        };
        let layer_budget = if self.config.desired_depth > start {
            self.config.desired_depth - start
        } else {
            0
        };
        let mut nodes_created: usize = 0;
        let mut layers_fully_expanded: usize = 0;
        let mut skipped_layer = false;
        let mut stop = false;
        let mut i: usize = 0;
        while i < layer_budget
            invariant
                self.wf(),
                self.first_layer_absolute_id == old(self).first_layer_absolute_id,
                self.highest_sent_layer == old(self).highest_sent_layer,
                self.highest_eq_layer == old(self).highest_eq_layer,
                self.highest_full_layer >= old(self).highest_full_layer,
                self.layers@.len() >= old(self).layers@.len(),
                forall|k: int| 0 <= k < old(self).layers@.len() ==> (#[trigger] self.layers@[k]).eq_command_spec()
                    == old(self).layers@[k].eq_command_spec(),
                self.layers@[0].nodes_spec().len() == old(self).layers@[0].nodes_spec().len(),
                forall|j: int|
                    0 <= j < self.layers@[0].nodes_spec().len() ==> (#[trigger] self.layers@[0].nodes_spec()[j]).1.on_basis_of_world
                        == old(self).layers@[0].nodes_spec()[j].1.on_basis_of_world,
                start >= old(self).highest_full_layer,
                layers_grow(old(self).layers@, self.layers@),
                self.highest_full_layer <= start + i,
                layers_fully_expanded <= i,
            decreases layer_budget - i,
        {
            if (node_budget <= nodes_created && self.highest_full_layer >= min_layer) || layer_budget <= layers_fully_expanded {
                break;
            }
            if start >= self.layers.len() || i >= self.layers.len() - start {
                break;
            }
            let rel = start + i;
            let layer_id = l_id(&self.layers[rel]);
            let ids = self.layers[rel].non_expanded_ids();
            let mut k: usize = 0;
            while k < ids.len()
                invariant
                    self.wf(),
                    self.first_layer_absolute_id == old(self).first_layer_absolute_id,
                    self.highest_sent_layer == old(self).highest_sent_layer,
                    self.highest_eq_layer == old(self).highest_eq_layer,
                    self.highest_full_layer >= old(self).highest_full_layer,
                    self.layers@.len() >= old(self).layers@.len(),
                    forall|m: int| 0 <= m < old(self).layers@.len() ==> (#[trigger] self.layers@[m]).eq_command_spec()
                        == old(self).layers@[m].eq_command_spec(),
                    self.layers@[0].nodes_spec().len() == old(self).layers@[0].nodes_spec().len(),
                    forall|j: int|
                        0 <= j < self.layers@[0].nodes_spec().len() ==> (#[trigger] self.layers@[0].nodes_spec()[j]).1.on_basis_of_world
                            == old(self).layers@[0].nodes_spec()[j].1.on_basis_of_world,
                    rel < self.layers@.len(),
                    self.highest_full_layer <= rel,
                    layers_grow(old(self).layers@, self.layers@),
                decreases ids.len() - k,
            {
                let abs_node_id = AbsoluteNodeId { layer_id, node_id: ids[k] };
                let ghost before = *self;
                let node_expansion_result = self.try_expand_node(abs_node_id);
                proof {
                    assert(Self::keeps_marks(*self, before));
                    lemma_grow_trans(old(self).layers@, before.layers@, self.layers@);
                }
                match node_expansion_result {
                    NodeExpansionResult::NotExpandable => {
                        return Err(TreeExpansionError { node: abs_node_id, expansion: NodeExpansionResult::NotExpandable });
                    },
                    NodeExpansionResult::AlreadyExpanded => {
                        return Err(TreeExpansionError { node: abs_node_id, expansion: NodeExpansionResult::AlreadyExpanded });
                    },
                    NodeExpansionResult::NotYetExpandable => {
                        skipped_layer = true;
                    },
                    NodeExpansionResult::EndState(_) => {},
                    NodeExpansionResult::Expanded(n) => {
                        if nodes_created <= usize::MAX - n {
                            nodes_created = nodes_created + n;
                        } else {
                            nodes_created = usize::MAX;
                        }
                    },
                }
                if node_budget <= nodes_created && self.highest_full_layer >= min_layer {
                    stop = true;
                    break;
                }
                k = k + 1;
            }
            if stop {
                break;
            }
            if !skipped_layer {
                layers_fully_expanded = layers_fully_expanded + 1;
                let ghost before = self.layers@;
                self.mark_fully_expanded(rel);
                proof {
                    lemma_grow_trans(old(self).layers@, before, self.layers@);
                }
            }
            i = i + 1;
        }
        Ok(TreeExpansionSuccess { nodes: nodes_created, layers: layers_fully_expanded })
    }

    /// Marks the layer at position `rel` fully expanded and makes it the highest full layer.
    fn mark_fully_expanded(&mut self, rel: usize)
        requires
            old(self).wf(),
            old(self).highest_full_layer <= rel < old(self).layers@.len(),
        ensures
            final(self).wf(),
            final(self).first_layer_absolute_id == old(self).first_layer_absolute_id,
            final(self).highest_sent_layer == old(self).highest_sent_layer,
            final(self).highest_eq_layer == old(self).highest_eq_layer,
            final(self).highest_full_layer == rel,
            final(self).layers@.len() == old(self).layers@.len(),
            forall|k: int| 0 <= k < old(self).layers@.len() ==> (#[trigger] final(self).layers@[k]).eq_command_spec()
                == old(self).layers@[k].eq_command_spec(),
            forall|k: int| 0 <= k < old(self).layers@.len() ==> (#[trigger] final(self).layers@[k]).nodes_spec()
                == old(self).layers@[k].nodes_spec(),
            layers_grow(old(self).layers@, final(self).layers@),
    {
        let ghost pre = self.layers@;
        let mut l = self.layers.remove(rel);
        l.is_fully_expanded = true;
        self.layers.insert(rel, l);
        proof {
            assert(self.layers@ =~= pre.update(rel as int, l));
            lemma_count_update(pre, rel as int, l);
            assert forall|k: int| 0 <= k < self.layers@.len() implies (#[trigger] self.layers@[k]).wf()
                && self.layers@[k].layer_id_spec().0 == self.first_layer_absolute_id.0 + k by {
                if k != rel {
                    assert(self.layers@[k] == pre[k]);
                }
            }
            assert forall|k: int| self.highest_sent_layer < k <= self.highest_eq_layer implies (
            #[trigger] self.layers@[k]).eq_command_spec() is Some by {
                if k != rel {
                    assert(self.layers@[k] == pre[k]);
                }
            }
            assert forall|k: int| 0 <= k < pre.len() implies (#[trigger] self.layers@[k]).eq_command_spec()
                == pre[k].eq_command_spec() && self.layers@[k].nodes_spec() == pre[k].nodes_spec() by {
                if k != rel {
                    assert(self.layers@[k] == pre[k]);
                }
            }
            assert forall|k: int| 0 <= k < pre.len() implies (#[trigger] self.layers@[k]).node_id_counter.0 >= pre[k].node_id_counter.0
                && (pre[k].is_sent ==> self.layers@[k].is_sent) by {
                if k != rel {
                    assert(self.layers@[k] == pre[k]);
                }
            }
            assert forall|k: int, i: int| 0 <= k < pre.len() && 0 <= i < self.layers@[k].nodes@.len() implies has_node(
                pre[k].nodes@,
                (#[trigger] self.layers@[k].nodes@[i]).0,
            ) || (!pre[k].is_sent && pre[k].node_id_counter.0 < usize::MAX && self.layers@[k].nodes@[i].0.0 >= pre[k].node_id_counter.0) by {
                assert(self.layers@[k].nodes@ == pre[k].nodes@);
                assert(has_node(pre[k].nodes@, pre[k].nodes@[i].0));
            }
            assert forall|k: int, i: int| 0 <= k < pre.len() && 0 <= i < pre[k].nodes@.len() implies has_node(
                self.layers@[k].nodes@,
                (#[trigger] pre[k].nodes@[i]).0,
            ) by {
                assert(self.layers@[k].nodes@ == pre[k].nodes@);
            }
        }
        self.highest_full_layer = rel;
    }
}


/// The common commands of the layers `from` up to, not including, `to`.
pub open spec fn layer_commands<const N: usize, S: Strategy<N>>(ls: Seq<StrategyTreeLayer<N, S>>, from: int, to: int) -> Seq<Command> {
    Seq::new((to - from) as nat, |k: int| ls[from + k].eq_command_spec().unwrap())
}

impl<const N: usize, S: Strategy<N>> StrategyTreeLayer<N, S> {
    /// Sets the world of the node at position `j`.
    fn set_world_at(&mut self, j: usize, w: PartialWorldData<N>)
        requires
            old(self).wf(),
            j < old(self).nodes_spec().len(),
        ensures
            final(self).wf(),
            final(self).layer_id_spec() == old(self).layer_id_spec(),
            final(self).eq_command_spec() == old(self).eq_command_spec(),
            final(self).node_count_spec() == old(self).node_count_spec(),
            final(self).nodes_spec().len() == old(self).nodes_spec().len(),
            final(self).is_sent_spec() == old(self).is_sent_spec(),
            final(self).fully_expanded_spec() == old(self).fully_expanded_spec(),
            final(self).next_id_spec() == old(self).next_id_spec(),
            forall|next: AbsoluteLayerId| old(self).children_in(next) ==> #[trigger] final(self).children_in(next),
            final(self).nodes_spec()[j as int].1.on_basis_of_world == w,
            same_node_shape(final(self).nodes_spec()[j as int], old(self).nodes_spec()[j as int]),
            forall|k: int| 0 <= k < final(self).nodes_spec().len() && k != j ==> #[trigger] final(self).nodes_spec()[k] == old(self).nodes_spec()[k],
    {
        let ghost pre = self.nodes@;
        let (id, n) = self.nodes.remove(j);
        let StrategyTreeNode { on_basis_of_world: _, on_basis_of_state, applied_strategy, as_branch_from_parent } = n;
        self.nodes.insert(j, (id, StrategyTreeNode { on_basis_of_world: w, on_basis_of_state, applied_strategy, as_branch_from_parent }));
        proof {
            assert forall|a: int, b: int| 0 <= a < b < self.nodes@.len() implies self.nodes@[a].0 != self.nodes@[b].0 by {
                assert(self.nodes@[a].0 == pre[a].0 && self.nodes@[b].0 == pre[b].0);
            }
            assert forall|k: int| 0 <= k < self.nodes@.len() implies (#[trigger] self.nodes@[k]).0 == pre[k].0 by {}
            assert forall|next: AbsoluteLayerId| old(self).children_in(next) implies #[trigger] self.children_in(next) by {
                assert forall|k: int| 0 <= k < self.nodes@.len() implies node_children_in(#[trigger] self.nodes@[k].1, next) by {
                    if k != j {
                        assert(self.nodes@[k] == pre[k]);
                    } else {
                        assert(node_children_in(pre[k].1, next));
                    }
                }
            }
        }
    }
}

impl<const N: usize, S: Strategy<N> + Clone + FromConfig<N>> StrategyTree<N, S> {
    /// Raises the highest equal layer over every full layer above it that has a common command,
    /// recording that command, up to the first one that has none.
    fn update_equal_layers(&mut self)
        requires
            old(self).wf(),
        ensures
            final(self).wf(),
            final(self).first_layer_absolute_id == old(self).first_layer_absolute_id,
            final(self).highest_sent_layer == old(self).highest_sent_layer,
            final(self).highest_full_layer == old(self).highest_full_layer,
            final(self).highest_eq_layer >= old(self).highest_eq_layer,
            final(self).layers@.len() == old(self).layers@.len(),
            forall|k: int| 0 <= k < old(self).layers@.len() ==> (#[trigger] final(self).layers@[k]).nodes_spec()
                == old(self).layers@[k].nodes_spec(),
            counters_kept(final(self).layers@, old(self).layers@),
    {
        let full = self.highest_full_layer;
        while self.highest_eq_layer < full
            invariant
                self.wf(),
                full == self.highest_full_layer,
                self.first_layer_absolute_id == old(self).first_layer_absolute_id,
                self.highest_sent_layer == old(self).highest_sent_layer,
                self.highest_full_layer == old(self).highest_full_layer,
                self.highest_eq_layer >= old(self).highest_eq_layer,
                self.layers@.len() == old(self).layers@.len(),
                forall|k: int| 0 <= k < old(self).layers@.len() ==> (#[trigger] self.layers@[k]).nodes_spec()
                    == old(self).layers@[k].nodes_spec(),
                counters_kept(self.layers@, old(self).layers@),
            decreases full - self.highest_eq_layer,
        {
            let off = self.highest_eq_layer + 1;
            let ghost pre = self.layers@;
            let mut l = self.layers.remove(off);
            let is_eq = l.update_eq_command();
            self.layers.insert(off, l);
            proof {
                assert(self.layers@ =~= pre.update(off as int, l));
                lemma_count_update(pre, off as int, l);
                assert forall|k: int| 0 <= k < self.layers@.len() implies (#[trigger] self.layers@[k]).wf()
                    && self.layers@[k].layer_id_spec().0 == self.first_layer_absolute_id.0 + k
                    && self.layers@[k].children_in(AbsoluteLayerId((self.first_layer_absolute_id.0 + k + 1) as usize)) by {
                    if k != off {
                        assert(self.layers@[k] == pre[k]);
                    }
                }
                assert forall|k: int| 0 <= k < old(self).layers@.len() implies (#[trigger] self.layers@[k]).nodes_spec()
                    == old(self).layers@[k].nodes_spec() by {
                    if k != off {
                        assert(self.layers@[k] == pre[k]);
                    }
                }
                assert forall|k: int| 0 <= k < self.layers@.len() implies (#[trigger] self.layers@[k]).node_id_counter
                    == old(self).layers@[k].node_id_counter && self.layers@[k].is_sent == old(self).layers@[k].is_sent by {
                    if k != off {
                        assert(self.layers@[k] == pre[k]);
                    }
                    assert(pre[k].node_id_counter == old(self).layers@[k].node_id_counter);
                }
                assert forall|k: int| self.highest_sent_layer < k <= self.highest_eq_layer implies (
                #[trigger] self.layers@[k]).eq_command_spec() is Some by {
                    assert(self.layers@[k] == pre[k]);
                }
            }
            if !is_eq {
                break;
            }
            self.highest_eq_layer = off;
        }
    }

    /// Sends every layer up to the highest equal one whose next layer is full as well, and
    /// returns the common commands of the newly sent layers in order.
    fn new_sends(&mut self) -> (r: Vec<Command>)
        requires
            old(self).wf(),
        ensures
            final(self).wf(),
            final(self).layers@ == old(self).layers@,
            final(self).first_layer_absolute_id == old(self).first_layer_absolute_id,
            final(self).highest_eq_layer == old(self).highest_eq_layer,
            final(self).highest_full_layer == old(self).highest_full_layer,
            final(self).highest_sent_layer == (if old(self).highest_full_layer > 0 && old(self).highest_sent_layer < (
            if old(self).highest_eq_layer < old(self).highest_full_layer - 1 {
                old(self).highest_eq_layer as int
            } else {
                old(self).highest_full_layer - 1
            }) {
                if old(self).highest_eq_layer < old(self).highest_full_layer - 1 {
                    old(self).highest_eq_layer as int
                } else {
                    old(self).highest_full_layer - 1
                }
            } else {
                old(self).highest_sent_layer as int
            }),
            r@.len() == final(self).highest_sent_layer - old(self).highest_sent_layer,
            forall|k: int|
                0 <= k < r@.len() ==> same_command(
                    #[trigger] r@[k],
                    layer_commands(old(self).layers@, old(self).highest_sent_layer + 1, final(self).highest_sent_layer + 1)[k],
                ),
    {
        let mut out: Vec<Command> = Vec::new();
        let full = self.highest_full_layer;
        if full == 0 {
            return out;
        }
        let sendable = if self.highest_eq_layer < full - 1 {
            self.highest_eq_layer
        } else {
            full - 1
        };
        let from = self.highest_sent_layer;
        if from < sendable {
            let ghost cmds = layer_commands(self.layers@, from + 1, sendable + 1);
            let mut j: usize = from + 1;
            while j <= sendable
                invariant
                    self.wf(),
                    from + 1 <= j <= sendable + 1,
                    sendable <= self.highest_eq_layer,
                    from == self.highest_sent_layer,
                    cmds == layer_commands(self.layers@, from + 1, sendable + 1),
                    out@.len() == j - from - 1,
                    forall|k: int| 0 <= k < out@.len() ==> same_command(#[trigger] out@[k], cmds[k]),
                decreases sendable + 1 - j,
            {
                let c = match &self.layers[j].eq {
                    Some(c) => c.clone(),
                    None => {
                        proof {
                            assert(self.layers@[j as int].eq_command_spec() is Some);
                        }
                        return out;
                    },
                };
                out.push(c);
                j = j + 1;
            }
            self.highest_sent_layer = sendable;
        }
        out
    }

    /// Prunes every node whose world cannot be that of the known map `filter`, with everything
    /// that follows it; a node the strategy still has to decide on learns what `filter` knows.
    /// Where the links between parents and children agree (`layers_linked`), every node left
    /// after the first layer stands for a node whose map's walls could be those of `filter`;
    /// where they agree both ways (`layers_linked_down` too) and the first layer fits
    /// `filter`, every node that fits `filter` together with all its ancestors is left.
    pub fn prune_not_potentially_eq(&mut self, filter: &PartialMap<N>) -> (r: Result<(), PruneError>)
        requires
            old(self).wf(),
        ensures
            final(self).wf(),
            final(self).first_layer_spec() == old(self).first_layer_spec(),
            final(self).highest_sent_spec() == old(self).highest_sent_spec(),
            final(self).highest_eq_spec() == old(self).highest_eq_spec(),
            final(self).highest_full_spec() == old(self).highest_full_spec(),
            final(self).layers_spec().len() == old(self).layers_spec().len(),
            final(self).layers_spec()[0].nodes_spec().len() == old(self).layers_spec()[0].nodes_spec().len(),
            ids_within(final(self).layers_spec(), old(self).layers_spec()),
            counters_kept(final(self).layers_spec(), old(self).layers_spec()),
            (layers_linked(old(self).layers_spec(), old(self).first_layer_spec()) && r is Ok) ==> kept_nodes_fit(
                final(self).layers_spec(),
                old(self).layers_spec(),
                filter.0,
                1,
            ),
            (layers_linked(old(self).layers_spec(), old(self).first_layer_spec()) && layers_linked_down(
                old(self).layers_spec(),
                old(self).first_layer_spec(),
            ) && r is Ok && forall|i: int|
                0 <= i < old(self).layers_spec()[0].nodes_spec().len() ==> (#[trigger] old(self).layers_spec()[0].nodes_spec()[i]).1.on_basis_of_world.0.map.walls_potentially_eq(
                    &filter.0,
                )) ==> forall|y: AbsoluteNodeId|
                #[trigger] lineage_fits(old(self).layers_spec(), old(self).first_layer_spec(), y, filter.0) ==> layers_have(
                    final(self).layers_spec(),
                    final(self).first_layer_spec(),
                    y,
                ),
    {
        let ghost first = self.first_layer_absolute_id;
        let ghost o = self.layers@;
        let ghost linked = layers_linked(o, first);
        let ghost root_fits = forall|i: int|
            0 <= i < o[0].nodes_spec().len() ==> (#[trigger] o[0].nodes_spec()[i]).1.on_basis_of_world.0.map.walls_potentially_eq(&filter.0);
        let mut node_indices: Vec<AbsoluteNodeId> = Vec::new();
        let mut li: usize = 0;
        proof {
            assert(layers_numbered(o, first));
        }
        while li < self.layers.len()
            invariant
                self.wf(),
                self.first_layer_absolute_id == old(self).first_layer_absolute_id,
                self.highest_sent_layer == old(self).highest_sent_layer,
                self.highest_eq_layer == old(self).highest_eq_layer,
                self.highest_full_layer == old(self).highest_full_layer,
                self.layers@.len() == old(self).layers@.len(),
                self.layers@[0].nodes_spec().len() == old(self).layers@[0].nodes_spec().len(),
                forall|k: int| 0 <= k < old(self).layers@.len() ==> (#[trigger] self.layers@[k]).eq_command_spec()
                    == old(self).layers@[k].eq_command_spec(),
                o == old(self).layers@,
                first == old(self).first_layer_absolute_id,
                layers_numbered(o, first),
                same_shape(self.layers@, o),
                forall|k: int| li <= k < o.len() ==> #[trigger] self.layers@[k] == o[k],
                forall|k: int, i: int|
                    0 <= k < li && 0 <= i < o[k].nodes@.len() && !(#[trigger] o[k].nodes@[i]).1.on_basis_of_world.0.map.walls_potentially_eq(
                        &filter.0,
                    ) ==> node_indices@.contains(AbsoluteNodeId { layer_id: o[k].absolute_layer_id, node_id: o[k].nodes@[i].0 }),
                forall|q: int|
                    0 <= q < node_indices@.len() ==> layers_have(o, first, #[trigger] node_indices@[q])
                        && !layers_node(o, first, node_indices@[q]).on_basis_of_world.0.map.walls_potentially_eq(&filter.0),
            decreases self.layers@.len() - li,
        {
            let ghost pre = self.layers@;
            let mut l = self.layers.remove(li);
            let ghost lpre = l;
            proof {
                assert(lpre == pre[li as int]);
                assert(lpre == o[li as int]);
            }
            let layer_id = l.absolute_layer_id;
            let mut j: usize = 0;
            while j < l.nodes.len()
                invariant
                    l.wf(),
                    l.layer_id_spec() == lpre.layer_id_spec(),
                    l.eq_command_spec() == lpre.eq_command_spec(),
                    l.node_count_spec() == lpre.node_count_spec(),
                    l.nodes_spec().len() == lpre.nodes_spec().len(),
                    l.is_sent_spec() == lpre.is_sent_spec(),
                    l.fully_expanded_spec() == lpre.fully_expanded_spec(),
                    l.next_id_spec() == lpre.next_id_spec(),
                    forall|next: AbsoluteLayerId| lpre.children_in(next) ==> #[trigger] l.children_in(next),
                    layer_id == lpre.absolute_layer_id,
                    lpre == o[li as int],
                    li < o.len(),
                    forall|m: int| 0 <= m < l.nodes@.len() ==> same_node_shape(#[trigger] l.nodes@[m], lpre.nodes@[m]),
                    forall|m: int| j <= m < l.nodes@.len() ==> #[trigger] l.nodes@[m] == lpre.nodes@[m],
                    forall|k: int, i: int|
                        0 <= k < li && 0 <= i < o[k].nodes@.len() && !(#[trigger] o[k].nodes@[i]).1.on_basis_of_world.0.map.walls_potentially_eq(
                            &filter.0,
                        ) ==> node_indices@.contains(AbsoluteNodeId { layer_id: o[k].absolute_layer_id, node_id: o[k].nodes@[i].0 }),
                    forall|m: int|
                        0 <= m < j && !(#[trigger] lpre.nodes@[m]).1.on_basis_of_world.0.map.walls_potentially_eq(&filter.0)
                            ==> node_indices@.contains(AbsoluteNodeId { layer_id: layer_id, node_id: lpre.nodes@[m].0 }),
                    forall|q: int|
                        0 <= q < node_indices@.len() ==> layers_have(o, first, #[trigger] node_indices@[q])
                            && !layers_node(o, first, node_indices@[q]).on_basis_of_world.0.map.walls_potentially_eq(&filter.0),
                    layers_numbered(o, first),
                    first == old(self).first_layer_absolute_id,
                decreases l.nodes@.len() - j,
            {
                let ghost ni = node_indices@;
                let ghost lj = l;
                let world = l.nodes[j].1.on_basis_of_world;
                if !world.0.map.potentially_eq(filter) {
                    let v = AbsoluteNodeId { layer_id, node_id: l.nodes[j].0 };
                    node_indices.push(v);
                    proof {
                        assert forall|y: AbsoluteNodeId| ni.contains(y) implies node_indices@.contains(y) by {
                            let w = choose|w: int| 0 <= w < ni.len() && ni[w] == y;
                            assert(node_indices@[w] == y);
                        }
                        assert(node_indices@[ni.len() as int] == v);
                        assert(o[li as int].absolute_layer_id.0 == first.0 + li);
                        assert(lj.nodes@[j as int] == lpre.nodes@[j as int]);
                        assert(has_node(o[li as int].nodes@, v.node_id));
                        assert(node_index(o[li as int].nodes@, v.node_id) == j);
                        assert forall|q: int|
                            0 <= q < node_indices@.len() implies layers_have(o, first, #[trigger] node_indices@[q])
                            && !layers_node(o, first, node_indices@[q]).on_basis_of_world.0.map.walls_potentially_eq(&filter.0) by {
                            if q < ni.len() {
                                assert(node_indices@[q] == ni[q]);
                            }
                        }
                    }
                } else if l.nodes[j].1.applied_strategy.is_none() && l.nodes[j].1.on_basis_of_state.is_some() {
                    match world.0.map.union(&filter.0) {
                        Some(u) => {
                            l.set_world_at(j, PartialWorldData(WorldData { map: u, mouse: world.0.mouse }));
                            proof {
                                assert forall|m: int| 0 <= m < l.nodes@.len() implies same_node_shape(#[trigger] l.nodes@[m], lpre.nodes@[m]) by {
                                    if m != j {
                                        assert(l.nodes@[m] == lj.nodes@[m]);
                                    }
                                    assert(same_node_shape(lj.nodes@[m], lpre.nodes@[m]));
                                }
                                assert forall|m: int| j + 1 <= m < l.nodes@.len() implies #[trigger] l.nodes@[m] == lpre.nodes@[m] by {
                                    assert(l.nodes@[m] == lj.nodes@[m]);
                                }
                            }
                        },
                        None => {},
                    }
                }
                j = j + 1;
            }
            self.layers.insert(li, l);
            proof {
                assert(self.layers@ =~= pre.update(li as int, l));
                lemma_count_update(pre, li as int, l);
                assert(l.children_in(AbsoluteLayerId((self.first_layer_absolute_id.0 + li + 1) as usize)));
                assert forall|k: int| 0 <= k < self.layers@.len() implies (#[trigger] self.layers@[k]).wf()
                    && self.layers@[k].layer_id_spec().0 == self.first_layer_absolute_id.0 + k
                    && self.layers@[k].children_in(AbsoluteLayerId((self.first_layer_absolute_id.0 + k + 1) as usize)) by {
                    if k != li {
                        assert(self.layers@[k] == pre[k]);
                    }
                }
                assert forall|k: int| self.highest_sent_layer < k <= self.highest_eq_layer implies (
                #[trigger] self.layers@[k]).eq_command_spec() is Some by {
                    if k != li {
                        assert(self.layers@[k] == pre[k]);
                    }
                }
                assert forall|k: int| 0 <= k < old(self).layers@.len() implies (#[trigger] self.layers@[k]).eq_command_spec()
                    == old(self).layers@[k].eq_command_spec() by {
                    if k != li {
                        assert(self.layers@[k] == pre[k]);
                    }
                }
                assert forall|k: int| 0 <= k < self.layers@.len() implies {
                    &&& (#[trigger] self.layers@[k]).nodes@.len() == o[k].nodes@.len()
                    &&& self.layers@[k].absolute_layer_id == o[k].absolute_layer_id
                    &&& self.layers@[k].node_id_counter == o[k].node_id_counter
                    &&& self.layers@[k].is_sent == o[k].is_sent
                    &&& forall|i: int| 0 <= i < self.layers@[k].nodes@.len() ==> same_node_shape(#[trigger] self.layers@[k].nodes@[i], o[k].nodes@[i])
                } by {
                    if k != li {
                        assert(self.layers@[k] == pre[k]);
                    }
                }
                assert forall|k: int| li + 1 <= k < o.len() implies #[trigger] self.layers@[k] == o[k] by {
                    assert(self.layers@[k] == pre[k]);
                }
                assert forall|k: int, i: int|
                    0 <= k < li + 1 && 0 <= i < o[k].nodes@.len() && !(#[trigger] o[k].nodes@[i]).1.on_basis_of_world.0.map.walls_potentially_eq(
                        &filter.0,
                    ) implies node_indices@.contains(AbsoluteNodeId { layer_id: o[k].absolute_layer_id, node_id: o[k].nodes@[i].0 }) by {
                    if k == li {
                        assert(lpre.nodes@[i] == o[k].nodes@[i]);
                    }
                }
            }
            li = li + 1;
        }
        let ghost p1 = self.layers@;
        proof {
            lemma_same_shape(p1, o, first);
            assert forall|y: AbsoluteNodeId| #[trigger] layers_have(o, first, y) implies layers_have(p1, first, y)
                && layers_node(o, first, y).as_branch_from_parent == layers_node(p1, first, y).as_branch_from_parent by {
                assert(layers_have(p1, first, y) == layers_have(o, first, y));
            }
            assert forall|q: int| 0 <= q < node_indices@.len() implies (#[trigger] node_indices@[q]).layer_id.0 >= first.0 by {
                assert(layers_have(o, first, node_indices@[q]));
            }
        }
        let mut k: usize = 0;
        while k < node_indices.len()
            invariant
                self.wf(),
                self.first_layer_absolute_id == old(self).first_layer_absolute_id,
                self.highest_sent_layer == old(self).highest_sent_layer,
                self.highest_eq_layer == old(self).highest_eq_layer,
                self.highest_full_layer == old(self).highest_full_layer,
                self.layers@.len() == old(self).layers@.len(),
                self.layers@[0].nodes_spec().len() == old(self).layers@[0].nodes_spec().len(),
                o == old(self).layers@,
                first == old(self).first_layer_absolute_id,
                layers_numbered(o, first),
                ids_within(self.layers@, o),
                counters_kept(self.layers@, o),
                linked == layers_linked(o, first),
                linked ==> layers_linked(self.layers@, first),
                forall|kk: int, i: int|
                    0 <= kk < o.len() && 0 <= i < o[kk].nodes@.len() && !(#[trigger] o[kk].nodes@[i]).1.on_basis_of_world.0.map.walls_potentially_eq(
                        &filter.0,
                    ) ==> node_indices@.contains(AbsoluteNodeId { layer_id: o[kk].absolute_layer_id, node_id: o[kk].nodes@[i].0 }),
                forall|q: int|
                    0 <= q < k && (#[trigger] node_indices@[q]).layer_id.0 > first.0 ==> linked ==> !layers_have(
                        self.layers@,
                        first,
                        node_indices@[q],
                    ),
                forall|q: int|
                    0 <= q < node_indices@.len() ==> layers_have(o, first, #[trigger] node_indices@[q])
                        && !layers_node(o, first, node_indices@[q]).on_basis_of_world.0.map.walls_potentially_eq(&filter.0),
                forall|y: AbsoluteNodeId|
                    #[trigger] layers_have(self.layers@, first, y) ==> layers_have(p1, first, y) && layers_node(
                        self.layers@,
                        first,
                        y,
                    ).as_branch_from_parent == layers_node(p1, first, y).as_branch_from_parent,
                layers_linked_down(o, first) ==> layers_linked_down(p1, first),
                layers_linked_down(p1, first) ==> layers_linked_down(self.layers@, first),
                k <= node_indices@.len(),
                root_fits == forall|i: int|
                    0 <= i < o[0].nodes_spec().len() ==> (#[trigger] o[0].nodes_spec()[i]).1.on_basis_of_world.0.map.walls_potentially_eq(&filter.0),
                (linked && layers_linked_down(o, first) && root_fits) ==> forall|y: AbsoluteNodeId|
                    layers_have(p1, first, y) && !#[trigger] layers_have(self.layers@, first, y) ==> exists|q: int|
                        0 <= q < k && node_indices@[q].layer_id.0 > first.0 && #[trigger] descends(p1, first, y, node_indices@[q]),
            decreases node_indices.len() - k,
        {
            let ghost before = self.layers@;
            let x = node_indices[k];
            let res = self.prune_node(x);
            proof {
                if root_fits {
                    assert(layers_have(o, first, x));
                    if x.layer_id.0 == first.0 {
                        let ix = node_index(o[0].nodes@, x.node_id);
                        assert(o[0].nodes_spec()[ix].1.on_basis_of_world.0.map.walls_potentially_eq(&filter.0));
                    }
                }
                if linked && layers_linked_down(o, first) && root_fits && res is Ok && x.layer_id.0 > first.0 {
                    assert forall|y: AbsoluteNodeId|
                        layers_have(p1, first, y) && !#[trigger] layers_have(self.layers@, first, y) implies exists|q: int|
                        0 <= q < k + 1 && node_indices@[q].layer_id.0 > first.0 && #[trigger] descends(p1, first, y, node_indices@[q]) by {
                        if layers_have(before, first, y) {
                            assert(descends(before, first, y, x));
                            lemma_descends_transfer(before, p1, first, y, x);
                            assert(node_indices@[k as int] == x);
                        } else {
                            let q = choose|q: int|
                                0 <= q < k && node_indices@[q].layer_id.0 > first.0 && #[trigger] descends(p1, first, y, node_indices@[q]);
                            assert(descends(p1, first, y, node_indices@[q]));
                        }
                    }
                }
                if linked && layers_linked_down(o, first) && root_fits && res matches Err(PruneError::UnknownNode(_)) {
                    assert forall|y: AbsoluteNodeId|
                        layers_have(p1, first, y) && !#[trigger] layers_have(self.layers@, first, y) implies exists|q: int|
                        0 <= q < k + 1 && node_indices@[q].layer_id.0 > first.0 && #[trigger] descends(p1, first, y, node_indices@[q]) by {
                        assert(!layers_have(before, first, y));
                        let q = choose|q: int|
                            0 <= q < k && node_indices@[q].layer_id.0 > first.0 && #[trigger] descends(p1, first, y, node_indices@[q]);
                        assert(descends(p1, first, y, node_indices@[q]));
                    }
                }
                lemma_ids_within_trans(self.layers@, before, o);
                assert forall|kk: int| 0 <= kk < self.layers@.len() implies (#[trigger] self.layers@[kk]).node_id_counter
                    == o[kk].node_id_counter && self.layers@[kk].is_sent == o[kk].is_sent by {
                    assert(self.layers@[kk].node_id_counter == before[kk].node_id_counter);
                    assert(before[kk].node_id_counter == o[kk].node_id_counter);
                }
                assert forall|q: int|
                    0 <= q < k + 1 && (#[trigger] node_indices@[q]).layer_id.0 > first.0 implies linked ==> !layers_have(
                    self.layers@,
                    first,
                    node_indices@[q],
                ) by {
                    if linked && layers_have(self.layers@, first, node_indices@[q]) {
                        lemma_ids_within_have(self.layers@, before, first, node_indices@[q]);
                    }
                }
            }
            match res {
                Ok(()) => {},
                Err(PruneError::UnknownNode(_)) => {},
                Err(e) => {
                    return Err(e);
                },
            }
            k = k + 1;
        }
        proof {
            if linked {
                assert forall|kk: int, i: int|
                    1 <= kk < self.layers@.len() && kk < o.len() && 0 <= i < self.layers@[kk].nodes_spec().len() && has_node(
                        o[kk].nodes_spec(),
                        (#[trigger] self.layers@[kk].nodes_spec()[i]).0,
                    ) implies o[kk].nodes_spec()[node_index(o[kk].nodes_spec(), self.layers@[kk].nodes_spec()[i].0)].1.on_basis_of_world.0.map.walls_potentially_eq(
                    &filter.0,
                ) by {
                    let id = self.layers@[kk].nodes@[i].0;
                    let m = node_index(o[kk].nodes@, id);
                    if !o[kk].nodes@[m].1.on_basis_of_world.0.map.walls_potentially_eq(&filter.0) {
                        let y = AbsoluteNodeId { layer_id: o[kk].absolute_layer_id, node_id: o[kk].nodes@[m].0 };
                        assert(node_indices@.contains(y));
                        let w = choose|w: int| 0 <= w < node_indices@.len() && node_indices@[w] == y;
                        assert(o[kk].absolute_layer_id.0 == first.0 + kk);
                        assert(node_indices@[w].layer_id.0 > first.0);
                        assert(!layers_have(self.layers@, first, y));
                        assert(has_node(self.layers@[kk].nodes@, id));
                    }
                }
            }
            if linked && layers_linked_down(o, first) && root_fits {
                assert forall|y: AbsoluteNodeId| #[trigger] lineage_fits(o, first, y, filter.0) implies layers_have(self.layers@, first, y) by {
                    assert(layers_have(o, first, y));
                    assert(layers_have(p1, first, y));
                    if !layers_have(self.layers@, first, y) {
                        let q = choose|q: int|
                            0 <= q < node_indices@.len() && node_indices@[q].layer_id.0 > first.0 && #[trigger] descends(p1, first, y, node_indices@[q]);
                        let x = node_indices@[q];
                        assert forall|z: AbsoluteNodeId| #[trigger] layers_have(p1, first, z) implies layers_have(o, first, z)
                            && layers_node(p1, first, z).as_branch_from_parent == layers_node(o, first, z).as_branch_from_parent by {
                            assert(layers_have(p1, first, z) == layers_have(o, first, z));
                        }
                        lemma_descends_transfer(p1, o, first, y, x);
                        lemma_descends_lineage(o, first, y, x, filter.0);
                        assert(layers_have(o, first, x));
                    }
                }
            }
        }
        Ok(())
    }
}


impl<const N: usize, S: Strategy<N> + Clone + FromConfig<N>> StrategyTree<N, S> {
    /// The world of the root.
    pub open spec fn root_world(&self) -> PartialWorldData<N> {
        self.layers_spec()[0].nodes_spec()[0].1.on_basis_of_world
    }

    /// Filters the tree by the best current knowledge `map` of the maze, expands it and returns
    /// the commands that became certain, in order. Fails with `MapConflictsWithMapUpdate`,
    /// changing nothing, exactly when the root's map cannot be `map`. Where the links between
    /// parents and children agree, every node of the tree before the call that is still there
    /// had a map whose walls could be those of `map` (nodes added by the expansion are new);
    /// where they agree both ways, every node whose map, and whose ancestors' maps, could be
    /// `map` is still there.
    pub fn handle_map_update(&mut self, map: &PartialMap<N>) -> (r: Result<Vec<Command>, StrategyTreeError>)
        requires
            old(self).wf(),
            old(self).single_root(),
        ensures
            final(self).wf(),
            final(self).single_root(),
            final(self).first_layer_spec() == old(self).first_layer_spec(),
            (r matches Err(StrategyTreeError::MapConflictsWithMapUpdate)) <==> !old(self).root_world().0.map.walls_potentially_eq(&map.0),
            !old(self).root_world().0.map.walls_potentially_eq(&map.0) ==> *final(self) == *old(self),
            r matches Ok(cmds) ==> {
                &&& cmds@.len() == final(self).highest_sent_spec() - old(self).highest_sent_spec()
                &&& forall|k: int|
                    0 <= k < cmds@.len() ==> same_command(
                        #[trigger] cmds@[k],
                        layer_commands(final(self).layers_spec(), old(self).highest_sent_spec() + 1, final(self).highest_sent_spec() + 1)[k],
                    )
            },
            (layers_linked(old(self).layers_spec(), old(self).first_layer_spec()) && r is Ok) ==> kept_nodes_fit(
                final(self).layers_spec(),
                old(self).layers_spec(),
                map.0,
                0,
            ),
            (layers_linked(old(self).layers_spec(), old(self).first_layer_spec()) && layers_linked_down(
                old(self).layers_spec(),
                old(self).first_layer_spec(),
            ) && r is Ok) ==> forall|y: AbsoluteNodeId|
                #[trigger] lineage_fits(old(self).layers_spec(), old(self).first_layer_spec(), y, map.0) ==> layers_have(
                    final(self).layers_spec(),
                    final(self).first_layer_spec(),
                    y,
                ),
    {
        if !self.layers[0].nodes[0].1.on_basis_of_world.0.map.potentially_eq(map) {
            return Err(StrategyTreeError::MapConflictsWithMapUpdate);
        }
        let ghost o = self.layers@;
        proof {
            assert forall|i: int|
                0 <= i < o[0].nodes_spec().len() implies (#[trigger] o[0].nodes_spec()[i]).1.on_basis_of_world.0.map.walls_potentially_eq(
                &map.0,
            ) by {
                assert(i == 0);
            }
        }
        match self.prune_not_potentially_eq(map) {
            Err(e) => {
                return Err(StrategyTreeError::WhilePruning(e));
            },
            Ok(()) => {},
        }
        let ghost p1 = self.layers@;
        match self.expand_fully() {
            Err(e) => {
                return Err(StrategyTreeError::WhileExpanding(e));
            },
            Ok(_) => {},
        }
        let ghost e1 = self.layers@;
        self.update_equal_layers();
        let ghost u1 = self.layers@;
        let r = self.new_sends();
        proof {
            assert forall|k: int, i: int|
                0 <= k < u1.len() && k < e1.len() && 0 <= i < u1[k].nodes@.len() implies #[trigger] has_node(
                e1[k].nodes@,
                u1[k].nodes@[i].0,
            ) by {
                assert(u1[k].nodes_spec() == e1[k].nodes_spec());
                assert(e1[k].nodes@[i] == u1[k].nodes@[i]);
            }
            assert forall|k: int, i: int| 0 <= k < e1.len() && 0 <= i < e1[k].nodes@.len() implies has_node(
                u1[k].nodes@,
                (#[trigger] e1[k].nodes@[i]).0,
            ) by {
                assert(u1[k].nodes_spec() == e1[k].nodes_spec());
            }
            lemma_grow_from_within(e1, u1);
            lemma_grow_trans(p1, e1, u1);
            if layers_linked(o, old(self).first_layer_absolute_id) {
                assert forall|k: int, i: int|
                    0 <= k < u1.len() && k < o.len() && 0 <= i < u1[k].nodes_spec().len() && has_node(
                        o[k].nodes_spec(),
                        (#[trigger] u1[k].nodes_spec()[i]).0,
                    ) implies o[k].nodes_spec()[node_index(o[k].nodes_spec(), u1[k].nodes_spec()[i].0)].1.on_basis_of_world.0.map.walls_potentially_eq(
                    &map.0,
                ) by {
                    let id = u1[k].nodes@[i].0;
                    assert(o[k].wf());
                    assert(p1[k].node_id_counter == o[k].node_id_counter && p1[k].is_sent == o[k].is_sent);
                    if !has_node(p1[k].nodes@, id) {
                        let m = node_index(o[k].nodes@, id);
                        assert(o[k].nodes@[m].0 == id);
                    }
                    assert(has_node(p1[k].nodes@, id));
                    if k == 0 {
                        assert(o[0].nodes@.len() == 1);
                        assert(node_index(o[0].nodes@, id) == 0);
                    } else {
                        let j = node_index(p1[k].nodes@, id);
                        assert(p1[k].nodes@[j].0 == id);
                        assert(has_node(o[k].nodes_spec(), p1[k].nodes_spec()[j].0));
                    }
                }
            }
        }
        proof {
            let first = old(self).first_layer_absolute_id;
            if layers_linked(o, first) && layers_linked_down(o, first) {
                assert forall|y: AbsoluteNodeId| #[trigger] lineage_fits(o, first, y, map.0) implies layers_have(u1, first, y) by {
                    assert(layers_have(p1, first, y));
                    let ky = y.layer_id.0 - first.0;
                    let iy = node_index(p1[ky].nodes@, y.node_id);
                    assert(has_node(u1[ky].nodes@, p1[ky].nodes@[iy].0));
                }
            }
        }
        Ok(r)
    }

    /// Filters the tree by the outcomes of the current command that the mouse ruled out,
    /// expands it and returns the commands that became certain, in order.
    pub fn handle_cmd_rejection(&mut self, rejections: &RejectedOutcomes) -> (r: Result<Vec<Command>, StrategyTreeError>)
        requires
            old(self).wf(),
            old(self).single_root(),
        ensures
            final(self).wf(),
            final(self).single_root(),
            final(self).first_layer_spec() == old(self).first_layer_spec(),
            r matches Ok(cmds) ==> {
                &&& cmds@.len() == final(self).highest_sent_spec() - old(self).highest_sent_spec()
                &&& forall|k: int|
                    0 <= k < cmds@.len() ==> same_command(
                        #[trigger] cmds@[k],
                        layer_commands(final(self).layers_spec(), old(self).highest_sent_spec() + 1, final(self).highest_sent_spec() + 1)[k],
                    )
            },
    {
        match self.prune_current_command_by_rejection(rejections) {
            Err(e) => {
                return Err(StrategyTreeError::WhilePruning(e));
            },
            Ok(()) => {},
        }
        match self.expand_fully() {
            Err(e) => {
                return Err(StrategyTreeError::WhileExpanding(e));
            },
            Ok(_) => {},
        }
        self.update_equal_layers();
        Ok(self.new_sends())
    }

    /// Treats the root as finished: its command's one outcome becomes the new root, expanded
    /// if it was not yet, and the root's layer is dropped. The errors that come before that
    /// node is expanded change nothing: the root was not decided on, or marks the end of the
    /// strategy, or its command has no outcome or more than one (or the tree has no layer for
    /// it). If the successor marks the end of the strategy, its layer counts as full, equal and
    /// sent, as far as the tree stays well formed.
    pub fn finish_root(&mut self) -> (r: Result<(), FinishRootError>)
        requires
            old(self).wf(),
            old(self).single_root(),
            old(self).highest_sent_spec() >= 1,
        ensures
            final(self).wf(),
            (old(self).root_node_spec().applied_strategy is None) ==> r == Err::<(), FinishRootError>(FinishRootError::RootNotExpanded)
                && *final(self) == *old(self),
            (old(self).root_node_spec().applied_strategy matches Some(Err(_))) ==> (r matches Err(FinishRootError::ImpossibleRootAction(_)))
                && *final(self) == *old(self),
            old(self).root_node_spec().applied_strategy matches Some(Ok(a)) ==> {
                &&& a.potential_outcomes@.len() == 0 ==> r == Err::<(), FinishRootError>(FinishRootError::NoSuccessor)
                    && *final(self) == *old(self)
                &&& a.potential_outcomes@.len() >= 2 ==> (r matches Err(FinishRootError::MultipleSuccessors(v)) && v@
                    == a.potential_outcomes@) && *final(self) == *old(self)
            },
            r is Ok ==> {
                &&& final(self).first_layer_spec().0 == old(self).first_layer_spec().0 + 1
                &&& final(self).highest_sent_spec() == old(self).highest_sent_spec() - 1
                &&& final(self).highest_eq_spec() == old(self).highest_eq_spec() - 1
                &&& final(self).layers_spec().len() >= old(self).layers_spec().len() - 1
            },
    {
        let successor = match &self.layers[0].nodes[0].1.applied_strategy {
            None => {
                return Err(FinishRootError::RootNotExpanded);
            },
            Some(Err(e)) => {
                return Err(FinishRootError::ImpossibleRootAction(e.clone()));
            },
            Some(Ok(a)) => {
                let potential_outcomes = &a.potential_outcomes;
                if potential_outcomes.len() == 0 {
                    return Err(FinishRootError::NoSuccessor);
                }
                if potential_outcomes.len() >= 2 {
                    return Err(FinishRootError::MultipleSuccessors(clone_outcomes(potential_outcomes)));
                }
                potential_outcomes[0].1
            },
        };
        if self.layers.len() < 2 {
            return Err(FinishRootError::SuccessorNotExpandable);
        }
        let ghost mid = *self;
        match self.try_expand_node(successor) {
            NodeExpansionResult::AlreadyExpanded => {},
            NodeExpansionResult::NotExpandable => {
                return Err(FinishRootError::SuccessorNotExpandable);
            },
            NodeExpansionResult::NotYetExpandable => {
                return Err(FinishRootError::SuccessorNotYetExpandable);
            },
            NodeExpansionResult::EndState(s) => {
                if self.highest_full_layer + 1 < self.layers.len() && (self.highest_eq_layer == self.highest_sent_layer
                    || self.layers[self.highest_eq_layer + 1].eq.is_some()) {
                    let ghost pre = *self;
                    self.highest_full_layer = self.highest_full_layer + 1;
                    self.highest_eq_layer = self.highest_eq_layer + 1;
                    self.highest_sent_layer = self.highest_sent_layer + 1;
                    proof {
                        assert forall|i: int| self.highest_sent_layer < i <= self.highest_eq_layer implies (
                        #[trigger] self.layers@[i]).eq_command_spec() is Some by {
                            if i <= pre.highest_eq_layer {
                                assert(pre.highest_sent_layer < i);
                            }
                        }
                    }
                }
                return Err(FinishRootError::SuccessorIsEnd(s));
            },
            NodeExpansionResult::Expanded(_) => {
                if self.highest_full_layer + 1 < self.layers.len() {
                    self.highest_full_layer = self.highest_full_layer + 1;
                }
            },
        }
        let ghost pre = self.layers@;
        proof {
            lemma_count_first(pre);
            lemma_count_ge0(pre.subrange(1, pre.len() as int));
            assert(pre[0].node_count_spec() == 1);
        }
        self.layers.remove(0);
        self.node_count = self.node_count - 1;
        self.first_layer_absolute_id = l_id(&self.layers[0]);
        self.highest_full_layer = self.highest_full_layer - 1;
        self.highest_eq_layer = self.highest_eq_layer - 1;
        self.highest_sent_layer = self.highest_sent_layer - 1;
        proof {
            assert(self.layers@ =~= pre.subrange(1, pre.len() as int));
            assert forall|i: int| 0 <= i < self.layers@.len() implies (#[trigger] self.layers@[i]).wf()
                && self.layers@[i].layer_id_spec().0 == self.first_layer_absolute_id.0 + i
                && self.layers@[i].children_in(AbsoluteLayerId((self.first_layer_absolute_id.0 + i + 1) as usize)) by {
                assert(self.layers@[i] == pre[i + 1]);
            }
            assert forall|i: int| self.highest_sent_layer < i <= self.highest_eq_layer implies (
            #[trigger] self.layers@[i]).eq_command_spec() is Some by {
                assert(self.layers@[i] == pre[i + 1]);
            }
        }
        Ok(())
    }

    /// The root node.
    pub open spec fn root_node_spec(&self) -> StrategyTreeNode<N, S> {
        self.layers_spec()[0].nodes_spec()[0].1
    }
}

/// A copy of a list of outcomes.
fn clone_outcomes(v: &Vec<(PathLocalOutcomeId, AbsoluteNodeId)>) -> (r: Vec<(PathLocalOutcomeId, AbsoluteNodeId)>)
    ensures
        r@ == v@,
{
    let mut out: Vec<(PathLocalOutcomeId, AbsoluteNodeId)> = Vec::new();
    let mut k: usize = 0;
    while k < v.len()
        invariant
            k <= v.len(),
            out@ == v@.subrange(0, k as int),
        decreases v.len() - k,
    {
        out.push(v[k]);
        k = k + 1;
        assert(out@ =~= v@.subrange(0, k as int));
    }
    assert(v@.subrange(0, v@.len() as int) =~= v@);
    out
}


/// Every outcome of the command a sent node applied leads to a node of layer `next`.
pub open spec fn sent_children_in<const N: usize>(n: SentCommandNode<N>, next: AbsoluteLayerId) -> bool {
    match n.applied_spec() {
        Ok(a) => forall|k: int| 0 <= k < a.potential_outcomes@.len() ==> (#[trigger] a.potential_outcomes@[k]).1.layer_spec() == next,
        Err(_) => true,
    }
}

/// The number of nodes of all sent layers.
pub open spec fn sent_node_count<const N: usize>(ls: Seq<SentTreeLayer<N>>) -> int
    decreases ls.len(),
{
    if ls.len() == 0 {
        0
    } else {
        sent_node_count(ls.drop_last()) + ls.last().node_count_spec()
    }
}

/// Sent layers as `close` leaves them behind: at least one, numbered consecutively, each with
/// distinct node ids and its node count, every outcome of a command leading into the next
/// layer, and a total node count within `usize`.
pub open spec fn sent_queue_ok<const N: usize>(ls: Seq<SentTreeLayer<N>>) -> bool {
    &&& ls.len() >= 1
    &&& ls[0].layer_id_spec().0 + ls.len() <= usize::MAX
    &&& sent_node_count(ls) <= usize::MAX
    &&& forall|i: int|
        0 <= i < ls.len() ==> {
            &&& (#[trigger] ls[i]).layer_id_spec().0 == ls[0].layer_id_spec().0 + i
            &&& node_ids_unique(ls[i].nodes_spec())
            &&& ls[i].node_count_spec() == ls[i].nodes_spec().len()
            &&& forall|j: int|
                0 <= j < ls[i].nodes_spec().len() ==> sent_children_in(
                    #[trigger] ls[i].nodes_spec()[j].1,
                    AbsoluteLayerId((ls[0].layer_id_spec().0 + i + 1) as usize),
                )
        }
}

/// A layer can be turned into a sent layer: it is fully expanded, has its common command, was
/// not taken over as sent, and every node was decided on.
pub open spec fn layer_sendable<const N: usize, S: Strategy<N>>(l: StrategyTreeLayer<N, S>) -> bool {
    &&& l.fully_expanded_spec()
    &&& l.eq_command_spec() is Some
    &&& !l.is_sent_spec()
    &&& forall|j: int| 0 <= j < l.nodes_spec().len() ==> (#[trigger] l.nodes_spec()[j]).1.applied_strategy is Some
}

impl<const N: usize> SentTreeLayer<N> {
    /// The layer `value` with its strategy states dropped: `LayerNotExpanded` unless it is fully
    /// expanded, `LayerNotEq` unless it has its common command, `LayerNotSent` if it was taken
    /// over as sent, and `NodesNotExpanded` if a node was not decided on.
    pub fn try_from_layer<S: Strategy<N>>(value: StrategyTreeLayer<N, S>) -> (r: Result<Self, LayerReductionError>)
        requires
            value.wf(),
        ensures
            !value.fully_expanded_spec() ==> r == Err::<Self, LayerReductionError>(LayerReductionError::LayerNotExpanded),
            value.fully_expanded_spec() && value.eq_command_spec() is None ==> r == Err::<Self, LayerReductionError>(
                LayerReductionError::LayerNotEq,
            ),
            value.fully_expanded_spec() && value.eq_command_spec() is Some && value.is_sent_spec() ==> r == Err::<
                Self,
                LayerReductionError,
            >(LayerReductionError::LayerNotSent),
            r is Ok <==> layer_sendable(value),
            r matches Ok(l) ==> {
                &&& l.layer_id_spec() == value.layer_id_spec()
                &&& l.node_count_spec() == value.node_count_spec()
                &&& Some(l.eq_command_spec()) == value.eq_command_spec()
                &&& l.nodes_spec().len() == value.nodes_spec().len()
                &&& forall|j: int|
                    0 <= j < l.nodes_spec().len() ==> (#[trigger] l.nodes_spec()[j]).0 == value.nodes_spec()[j].0
                        && l.nodes_spec()[j].1.world_spec() == value.nodes_spec()[j].1.on_basis_of_world
                        && Some(l.nodes_spec()[j].1.applied_spec()) == value.nodes_spec()[j].1.applied_strategy
                        && l.nodes_spec()[j].1.parent_spec() == value.nodes_spec()[j].1.as_branch_from_parent
            },
    {
        if !value.is_fully_expanded {
            return Err(LayerReductionError::LayerNotExpanded);
        }
        let eq = match value.eq {
            None => {
                return Err(LayerReductionError::LayerNotEq);
            },
            Some(c) => c,
        };
        if value.is_sent {
            return Err(LayerReductionError::LayerNotSent);
        }
        let ghost src0 = value.nodes@;
        let mut src = value.nodes;
        let mut nodes: Vec<(RelativeNodeId, SentCommandNode<N>)> = Vec::new();
        let mut all = true;
        while src.len() > 0
            invariant
                nodes@.len() <= src0.len() - src@.len(),
                src@ == src0.subrange(src0.len() - src@.len(), src0.len() as int),
                all ==> nodes@.len() == src0.len() - src@.len(),
                all ==> forall|j: int| 0 <= j < src0.len() - src@.len() ==> (#[trigger] src0[j]).1.applied_strategy is Some,
                all ==> forall|j: int|
                    0 <= j < nodes@.len() ==> (#[trigger] nodes@[j]).0 == src0[j].0 && nodes@[j].1.world_spec()
                        == src0[j].1.on_basis_of_world && Some(nodes@[j].1.applied_spec()) == src0[j].1.applied_strategy
                        && nodes@[j].1.parent_spec() == src0[j].1.as_branch_from_parent,
                !all ==> exists|j: int| 0 <= j < src0.len() && (#[trigger] src0[j]).1.applied_strategy is None,
            decreases src@.len(),
        {
            let ghost k = src0.len() - src@.len();
            let (id, v) = src.remove(0);
            assert(src0[k] == (id, v));
            assert(src@ =~= src0.subrange(src0.len() - src@.len(), src0.len() as int));
            let StrategyTreeNode { on_basis_of_world, on_basis_of_state: _, applied_strategy, as_branch_from_parent } = v;
            match applied_strategy {
                Some(a) => {
                    nodes.push((id, SentCommandNode { on_basis_of_world, applied_strategy: a, as_branch_from_parent }));
                },
                None => {
                    all = false;
                },
            }
        }
        if !all {
            return Err(LayerReductionError::NodesNotExpanded);
        }
        Ok(SentTreeLayer { eq, nodes, absolute_layer_id: value.absolute_layer_id, node_count: value.node_count })
    }
}

impl<const N: usize, S: Strategy<N> + Clone + FromConfig<N>> StrategyTree<N, S> {
    /// The tree can be closed: its root marks the end of the strategy while nothing after it
    /// was sent, or the sent layers and the first layer after them can all be turned into sent
    /// layers.
    pub open spec fn closable(&self) -> bool {
        ||| (self.highest_sent_spec() == 0 && self.root_node_spec().applied_strategy matches Some(Err(_)))
        ||| (self.highest_sent_spec() + 1 < self.layers_spec().len() && forall|i: int|
            0 <= i <= self.highest_sent_spec() + 1 ==> layer_sendable(#[trigger] self.layers_spec()[i]))
    }

    /// Closes the tree, leaving behind what was sent and cannot be taken back: the sent layers
    /// and the first layer after them (where a new tree is grafted on), without their strategy
    /// states; or, if the root marks the end of the strategy and nothing after it was sent, the
    /// root's world.
    pub fn close(self) -> (r: SentUnfinishedCommands<N>)
        requires
            self.wf(),
            self.single_root(),
            self.closable(),
        ensures
            (self.highest_sent_spec() == 0 && self.root_node_spec().applied_strategy matches Some(Err(_))) ==> r
                == (SentUnfinishedCommands::<N>::HasBlockingRoot { world: self.root_world().0 }),
            !(self.highest_sent_spec() == 0 && self.root_node_spec().applied_strategy matches Some(Err(_))) ==> (
            r matches SentUnfinishedCommands::HasQueue { layers } && layers@.len() == self.highest_sent_spec() + 2
                && forall|i: int|
                0 <= i < layers@.len() ==> {
                    &&& (#[trigger] layers@[i]).layer_id_spec() == self.layers_spec()[i].layer_id_spec()
                    &&& layers@[i].node_count_spec() == self.layers_spec()[i].node_count_spec()
                    &&& Some(layers@[i].eq_command_spec()) == self.layers_spec()[i].eq_command_spec()
                    &&& layers@[i].nodes_spec().len() == self.layers_spec()[i].nodes_spec().len()
                } && sent_queue_ok(layers@)),
    {
        let highest_sent_layer = self.highest_sent_layer;
        let ghost first = self.first_layer_absolute_id;
        let ghost total = self.node_count;
        let blocking = match &self.layers[0].nodes[0].1.applied_strategy {
            Some(Err(_)) => true,
            _ => false,
        };
        if highest_sent_layer == 0 && blocking {
            return SentUnfinishedCommands::HasBlockingRoot { world: self.layers[0].nodes[0].1.on_basis_of_world.0 };
        }
        let ghost all = self.layers@;
        assert(self.layers@.len() == self.layers.len());
        let mut inner_layers = self.layers;
        let mut layers: Vec<SentTreeLayer<N>> = Vec::new();
        let mut i: usize = 0;
        while i <= highest_sent_layer + 1
            invariant
                highest_sent_layer + 1 < all.len(),
                all.len() <= usize::MAX,
                forall|m: int| 0 <= m <= highest_sent_layer + 1 ==> layer_sendable(#[trigger] all[m]),
                forall|m: int| 0 <= m < all.len() ==> (#[trigger] all[m]).wf(),
                i <= highest_sent_layer + 2,
                inner_layers@ == all.subrange(i as int, all.len() as int),
                layers@.len() == i,
                forall|m: int|
                    0 <= m < i ==> {
                        &&& (#[trigger] layers@[m]).layer_id_spec() == all[m].layer_id_spec()
                        &&& layers@[m].node_count_spec() == all[m].node_count_spec()
                        &&& Some(layers@[m].eq_command_spec()) == all[m].eq_command_spec()
                        &&& layers@[m].nodes_spec().len() == all[m].nodes_spec().len()
                        &&& layers@[m].layer_id_spec().0 == first.0 + m
                        &&& node_ids_unique(layers@[m].nodes_spec())
                        &&& layers@[m].node_count_spec() == layers@[m].nodes_spec().len()
                        &&& forall|j: int|
                            0 <= j < layers@[m].nodes_spec().len() ==> sent_children_in(
                                #[trigger] layers@[m].nodes_spec()[j].1,
                                AbsoluteLayerId((first.0 + m + 1) as usize),
                            )
                    },
                forall|m: int|
                    0 <= m < all.len() ==> (#[trigger] all[m]).layer_id_spec().0 == first.0 + m && all[m].children_in(
                        AbsoluteLayerId((first.0 + m + 1) as usize),
                    ),
                first.0 + all.len() <= usize::MAX,
                total == layers_node_count(all),
                total <= usize::MAX,
                sent_node_count(layers@) == layers_node_count(all.subrange(0, i as int)),
            decreases highest_sent_layer + 2 - i,
        {
            let layer = inner_layers.remove(0);
            assert(layer == all[i as int]);
            assert(inner_layers@ =~= all.subrange(i + 1, all.len() as int));
            match SentTreeLayer::try_from_layer(layer) {
                Ok(l) => {
                    let ghost before = layers@;
                    layers.push(l);
                    proof {
                        lemma_layers_prefix(all, i as int);
                        assert(layers@.drop_last() =~= before);
                        let next = AbsoluteLayerId((first.0 + i + 1) as usize);
                        assert forall|a: int, b: int| 0 <= a < b < l.nodes_spec().len() implies l.nodes_spec()[a].0
                            != l.nodes_spec()[b].0 by {
                            assert(l.nodes_spec()[a].0 == all[i as int].nodes_spec()[a].0);
                            assert(l.nodes_spec()[b].0 == all[i as int].nodes_spec()[b].0);
                        }
                        assert forall|j: int| 0 <= j < l.nodes_spec().len() implies sent_children_in(
                            #[trigger] l.nodes_spec()[j].1,
                            next,
                        ) by {
                            assert(node_children_in(all[i as int].nodes_spec()[j].1, next));
                        }
                        assert forall|m: int| 0 <= m < layers@.len() implies {
                            &&& (#[trigger] layers@[m]).layer_id_spec() == all[m].layer_id_spec()
                            &&& layers@[m].node_count_spec() == all[m].node_count_spec()
                            &&& Some(layers@[m].eq_command_spec()) == all[m].eq_command_spec()
                            &&& layers@[m].nodes_spec().len() == all[m].nodes_spec().len()
                            &&& layers@[m].layer_id_spec().0 == first.0 + m
                            &&& node_ids_unique(layers@[m].nodes_spec())
                            &&& layers@[m].node_count_spec() == layers@[m].nodes_spec().len()
                            &&& forall|j: int|
                                0 <= j < layers@[m].nodes_spec().len() ==> sent_children_in(
                                    #[trigger] layers@[m].nodes_spec()[j].1,
                                    AbsoluteLayerId((first.0 + m + 1) as usize),
                                )
                        } by {
                            if m < i {
                                assert(layers@[m] == before[m]);
                            }
                        }
                    }
                },
                Err(_) => {
                    proof {
                        assert(layer_sendable(all[i as int]));
                    }
                },
            }
            i = i + 1;
        }
        proof {
            lemma_layers_prefix_le(all, i as int);
            lemma_count_ge0(all.subrange(i as int, all.len() as int));
        }
        SentUnfinishedCommands::HasQueue { layers }
    }
}



proof fn lemma_layers_prefix<const N: usize, S: Strategy<N>>(ls: Seq<StrategyTreeLayer<N, S>>, i: int)
    requires
        0 <= i < ls.len(),
    ensures
        layers_node_count(ls.subrange(0, i + 1)) == layers_node_count(ls.subrange(0, i)) + ls[i].node_count_spec(),
{
    assert(ls.subrange(0, i + 1).drop_last() =~= ls.subrange(0, i));
}

proof fn lemma_layers_prefix_le<const N: usize, S: Strategy<N>>(ls: Seq<StrategyTreeLayer<N, S>>, i: int)
    requires
        0 <= i <= ls.len(),
    ensures
        layers_node_count(ls.subrange(0, i)) <= layers_node_count(ls),
    decreases ls.len() - i,
{
    if i < ls.len() {
        lemma_layers_prefix(ls, i);
        lemma_layers_prefix_le(ls, i + 1);
    } else {
        assert(ls.subrange(0, i) =~= ls);
    }
}

proof fn lemma_sent_prefix<const N: usize>(ls: Seq<SentTreeLayer<N>>, i: int)
    requires
        0 <= i < ls.len(),
    ensures
        sent_node_count(ls.subrange(0, i + 1)) == sent_node_count(ls.subrange(0, i)) + ls[i].node_count_spec(),
        sent_node_count(ls.subrange(0, i + 1)) <= sent_node_count(ls),
    decreases ls.len(),
{
    assert(ls.subrange(0, i + 1).drop_last() =~= ls.subrange(0, i));
    if i + 1 < ls.len() {
        lemma_sent_prefix(ls.drop_last(), i);
        assert(ls.drop_last().subrange(0, i + 1) =~= ls.subrange(0, i + 1));
        assert(ls.drop_last().subrange(0, i) =~= ls.subrange(0, i));
    } else {
        assert(ls.subrange(0, i + 1) =~= ls);
    }
}

impl<const N: usize, S: Strategy<N> + FromConfig<N>> StrategyTreeLayer<N, S> {
    /// Turns the layer into the point where a new tree is grafted on: every node gets a fresh
    /// strategy state made from `config` and its world (only the mouse's transform if
    /// `reset_world`) and is no longer decided on; the layer is neither expanded, equal nor
    /// sent, and its counter hands out ids beyond those of its nodes.
    fn reset_for_grafting(&mut self, config: &S::Config, reset_world: bool)
        requires
            old(self).wf(),
        ensures
            final(self).wf(),
            final(self).layer_id_spec() == old(self).layer_id_spec(),
            final(self).node_count_spec() == old(self).node_count_spec(),
            final(self).nodes_spec().len() == old(self).nodes_spec().len(),
            !final(self).is_sent_spec(),
            !final(self).fully_expanded_spec(),
            final(self).eq_command_spec() is None,
            forall|next: AbsoluteLayerId| #[trigger] final(self).children_in(next),
            forall|j: int|
                0 <= j < final(self).nodes_spec().len() ==> (#[trigger] final(self).nodes_spec()[j]).0 == old(self).nodes_spec()[j].0
                    && final(self).nodes_spec()[j].1.on_basis_of_world == old(self).nodes_spec()[j].1.on_basis_of_world
                    && final(self).nodes_spec()[j].1.applied_strategy is None
                    && final(self).nodes_spec()[j].1.on_basis_of_state is Some,
    {
        let ghost pre = self.nodes@;
        let mut counter: usize = 0;
        let mut j: usize = 0;
        while j < self.nodes.len()
            invariant
                j <= self.nodes.len(),
                self.nodes@ == pre,
                *self == *old(self),
                forall|k: int| 0 <= k < j ==> (#[trigger] pre[k]).0.0 < counter || counter == usize::MAX,
            decreases self.nodes.len() - j,
        {
            let id = self.nodes[j].0 .0;
            if id == usize::MAX {
                counter = usize::MAX;
            } else if id >= counter {
                counter = id + 1;
            }
            j = j + 1;
        }
        let mut j: usize = 0;
        while j < self.nodes.len()
            invariant
                j <= self.nodes.len(),
                self.nodes@.len() == pre.len(),
                self.absolute_layer_id == old(self).absolute_layer_id,
                self.node_count == old(self).node_count,
                old(self).wf(),
                pre == old(self).nodes@,
                forall|k: int|
                    0 <= k < self.nodes@.len() ==> (#[trigger] self.nodes@[k]).0 == pre[k].0 && self.nodes@[k].1.on_basis_of_world
                        == pre[k].1.on_basis_of_world,
                forall|k: int|
                    0 <= k < j ==> (#[trigger] self.nodes@[k]).1.applied_strategy is None && self.nodes@[k].1.on_basis_of_state is Some,
            decreases self.nodes.len() - j,
        {
            let ghost before = self.nodes@;
            let (id, n) = self.nodes.remove(j);
            let StrategyTreeNode { on_basis_of_world, on_basis_of_state: _, applied_strategy: _, as_branch_from_parent } = n;
            let state = if reset_world {
                S::from_config(config, &on_basis_of_world.only_pos())
            } else {
                S::from_config(config, &on_basis_of_world.0)
            };
            self.nodes.insert(
                j,
                (id, StrategyTreeNode { on_basis_of_world, on_basis_of_state: Some(state), applied_strategy: None, as_branch_from_parent }),
            );
            proof {
                assert forall|k: int|
                    0 <= k < self.nodes@.len() implies (#[trigger] self.nodes@[k]).0 == pre[k].0 && self.nodes@[k].1.on_basis_of_world
                        == pre[k].1.on_basis_of_world by {
                    if k != j {
                        assert(self.nodes@[k] == before[k]);
                    }
                }
                assert forall|k: int| 0 <= k < j + 1 implies (#[trigger] self.nodes@[k]).1.applied_strategy is None
                    && self.nodes@[k].1.on_basis_of_state is Some by {
                    if k != j {
                        assert(self.nodes@[k] == before[k]);
                    }
                }
            }
            j = j + 1;
        }
        self.is_fully_expanded = false;
        self.eq = None;
        self.is_sent = false;
        self.node_id_counter = RelativeNodeIdCounter(counter);
        proof {
            assert forall|a: int, b: int| 0 <= a < b < self.nodes@.len() implies self.nodes@[a].0 != self.nodes@[b].0 by {
                assert(self.nodes@[a].0 == pre[a].0 && self.nodes@[b].0 == pre[b].0);
            }
            assert forall|k: int| 0 <= k < self.nodes@.len() && counter < usize::MAX implies (#[trigger] self.nodes@[k]).0.0 < counter by {
                assert(self.nodes@[k].0 == pre[k].0);
            }
            assert forall|next: AbsoluteLayerId| #[trigger] self.children_in(next) by {
                assert forall|k: int| 0 <= k < self.nodes@.len() implies node_children_in(#[trigger] self.nodes@[k].1, next) by {}
            }
        }
    }
}

impl<const N: usize, S: Strategy<N> + Clone + FromConfig<N>> StrategyTree<N, S> {
    /// A new tree. Continuing after layers that were sent and cannot be taken back, it takes
    /// them over as sent, their last layer becoming the grafting point whose nodes get fresh
    /// strategy states (made from the mouse's transform alone if `reset_world`). Starting at a
    /// state, it makes a root node there, expands the tree and returns the root's command,
    /// failing if the root's strategy ends there or the root could not be expanded.
    pub fn new(
        starting_condition: StrategyStart<N>,
        tree_config: StrategyTreeConfig<N, S>,
        goal_position: GoalPosition,
    ) -> (r: Result<TreeCreationSuccess<N, S>, StrategyTreeError>)
        requires
            starting_condition matches StrategyStart::ContinueAfterDoing {
                after_cmds: SentUnfinishedCommands::HasQueue { layers },
                ..
            } ==> sent_queue_ok(layers@),
        ensures
            r matches Ok(s) ==> s.tree.wf(),
            starting_condition matches StrategyStart::ContinueAfterDoing {
                after_cmds: SentUnfinishedCommands::HasQueue { layers },
                ..
            } ==> (r matches Ok(s) && {
                &&& s.origin_command is None
                &&& s.tree.first_layer_spec() == layers@[0].layer_id_spec()
                &&& s.tree.layers_spec().len() == layers@.len()
                &&& forall|i: int|
                    0 <= i < layers@.len() ==> (#[trigger] s.tree.layers_spec()[i]).layer_id_spec() == layers@[i].layer_id_spec()
                        && s.tree.layers_spec()[i].node_count_spec() == layers@[i].node_count_spec()
            }),
            starting_condition matches StrategyStart::DirectlyAtState(w) ==> (r matches Ok(s) ==> {
                &&& s.tree.single_root()
                &&& s.tree.root_world() == PartialWorldData(w)
                &&& s.tree.first_layer_spec() == AbsoluteLayerId(0)
                &&& s.origin_command is Some
            }),
    {
        match starting_condition {
            StrategyStart::ContinueAfterDoing { after_cmds: SentUnfinishedCommands::HasQueue { layers }, reset_world } => {
                let ghost src0 = layers@;
                let n = layers.len();
                let first_layer_absolute_id = layers[0].absolute_layer_id;
                let mut src = layers;
                let mut transformed_layers: Vec<StrategyTreeLayer<N, S>> = Vec::new();
                let mut node_count: usize = 0;
                while src.len() > 0
                    invariant
                        sent_queue_ok(src0),
                        n == src0.len(),
                        first_layer_absolute_id == src0[0].layer_id_spec(),
                        transformed_layers@.len() + src@.len() == src0.len(),
                        src@ == src0.subrange(transformed_layers@.len() as int, src0.len() as int),
                        node_count == layers_node_count(transformed_layers@),
                        node_count == sent_node_count(src0.subrange(0, transformed_layers@.len() as int)),
                        forall|i: int|
                            0 <= i < transformed_layers@.len() ==> {
                                &&& (#[trigger] transformed_layers@[i]).wf()
                                &&& transformed_layers@[i].layer_id_spec() == src0[i].layer_id_spec()
                                &&& transformed_layers@[i].node_count_spec() == src0[i].node_count_spec()
                                &&& transformed_layers@[i].children_in(AbsoluteLayerId((first_layer_absolute_id.0 + i + 1) as usize))
                                &&& transformed_layers@[i].eq_command_spec() is Some
                                &&& transformed_layers@[i].fully_expanded_spec()
                            },
                    decreases src@.len(),
                {
                    let ghost i = transformed_layers@.len() as int;
                    let l = src.remove(0);
                    assert(l == src0[i]);
                    assert(src@ =~= src0.subrange(i + 1, src0.len() as int));
                    let layer = StrategyTreeLayer::<N, S>::non_expandable_from_cleaned(l);
                    proof {
                        lemma_sent_prefix(src0, i);
                        lemma_count_push(transformed_layers@, layer);
                        let next = AbsoluteLayerId((first_layer_absolute_id.0 + i + 1) as usize);
                        assert forall|a: int, b: int| 0 <= a < b < layer.nodes_spec().len() implies layer.nodes_spec()[a].0
                            != layer.nodes_spec()[b].0 by {
                            assert(layer.nodes_spec()[a].0 == l.nodes_spec()[a].0);
                            assert(layer.nodes_spec()[b].0 == l.nodes_spec()[b].0);
                        }
                        assert forall|j: int| 0 <= j < layer.nodes_spec().len() implies node_children_in(
                            #[trigger] layer.nodes_spec()[j].1,
                            next,
                        ) by {
                            assert(layer.nodes_spec()[j].1 == from_sent::<N, S>(l.nodes_spec()[j].1));
                            assert(sent_children_in(l.nodes_spec()[j].1, next));
                        }
                    }
                    node_count = node_count + layer.node_count;
                    let ghost tl = transformed_layers@;
                    transformed_layers.push(layer);
                    proof {
                        assert forall|k: int| 0 <= k < transformed_layers@.len() implies {
                            &&& (#[trigger] transformed_layers@[k]).wf()
                            &&& transformed_layers@[k].layer_id_spec() == src0[k].layer_id_spec()
                            &&& transformed_layers@[k].node_count_spec() == src0[k].node_count_spec()
                            &&& transformed_layers@[k].children_in(AbsoluteLayerId((first_layer_absolute_id.0 + k + 1) as usize))
                            &&& transformed_layers@[k].eq_command_spec() is Some
                            &&& transformed_layers@[k].fully_expanded_spec()
                        } by {
                            if k < i {
                                assert(transformed_layers@[k] == tl[k]);
                            }
                        }
                    }
                }
                let ghost before = transformed_layers@;
                let mut last = transformed_layers.pop().unwrap();
                last.reset_for_grafting(&tree_config.strategy_config, reset_world);
                transformed_layers.push(last);
                let mark = if n >= 2 {
                    n - 2
                } else {
                    0
                };
                let tree = StrategyTree {
                    config: tree_config,
                    layers: transformed_layers,
                    highest_sent_layer: mark,
                    highest_eq_layer: mark,
                    highest_full_layer: mark,
                    first_layer_absolute_id,
                    node_count,
                    goal_position,
                };
                proof {
                    assert(src0.subrange(0, n as int) =~= src0);
                    assert(tree.layers@ =~= before.update(n - 1, last));
                    lemma_count_update(before, n - 1, last);
                    assert forall|i: int| 0 <= i < tree.layers@.len() implies (#[trigger] tree.layers@[i]).wf()
                        && tree.layers@[i].layer_id_spec().0 == first_layer_absolute_id.0 + i && tree.layers@[i].children_in(
                        AbsoluteLayerId((first_layer_absolute_id.0 + i + 1) as usize),
                    ) by {
                        if i != n - 1 {
                            assert(tree.layers@[i] == before[i]);
                        }
                    }
                }
                Ok(TreeCreationSuccess { tree, origin_command: None })
            },
            other => {
                let starting_state = match other {
                    StrategyStart::ContinueAfterDoing { after_cmds: SentUnfinishedCommands::HasBlockingRoot { world }, reset_world } => {
                        if reset_world {
                            world.only_pos()
                        } else {
                            world
                        }
                    },
                    StrategyStart::DirectlyAtState(world) => world,
                    StrategyStart::ContinueAfterDoing { after_cmds: SentUnfinishedCommands::HasQueue { .. }, .. } => {
                        proof {
                            assert(false);
                        }
                        WorldData::<N>::default()
                    },
                };
                let first_strategy = S::from_config(&tree_config.strategy_config, &starting_state);
                let mut root_layer = StrategyTreeLayer::<N, S>::new(AbsoluteLayerId(0));
                let _ = root_layer.add_node(StrategyTreeNode::new_orphan(PartialWorldData(starting_state), Some(first_strategy)));
                let mut layers: Vec<StrategyTreeLayer<N, S>> = Vec::new();
                layers.push(root_layer);
                let mut res = StrategyTree {
                    config: tree_config,
                    layers,
                    highest_sent_layer: 0,
                    highest_eq_layer: 0,
                    highest_full_layer: 0,
                    first_layer_absolute_id: AbsoluteLayerId(0),
                    node_count: 1,
                    goal_position,
                };
                proof {
                    let ls = res.layers@;
                    assert(ls.drop_last() =~= Seq::<StrategyTreeLayer<N, S>>::empty());
                    assert(layers_node_count(ls.drop_last()) == 0);
                    assert(layers_node_count(ls) == 1);
                    assert(ls[0].wf());
                    assert(ls[0].layer_id_spec().0 == 0);
                    assert(res.layers@[0].children_in(AbsoluteLayerId(1))) by {
                        assert forall|k: int| 0 <= k < res.layers@[0].nodes_spec().len() implies node_children_in(
                            #[trigger] res.layers@[0].nodes_spec()[k].1,
                            AbsoluteLayerId(1),
                        ) by {}
                    }
                }
                match res.expand_fully() {
                    Err(e) => {
                        return Err(StrategyTreeError::WhileCreating(TreeCreationError::ExpansionError(e)));
                    },
                    Ok(_) => {},
                }
                let first_cmd = match &res.layers[0].nodes[0].1.applied_strategy {
                    None => {
                        return Err(StrategyTreeError::WhileCreating(TreeCreationError::RootNotExpanded));
                    },
                    Some(Err(e)) => {
                        return Err(StrategyTreeError::WhileCreating(TreeCreationError::StrategyError(e.clone())));
                    },
                    Some(Ok(a)) => a.command.command().clone(),
                };
                // The root's command counts as sent: its layer has it as common command.
                res.refresh_eq(0);
                Ok(TreeCreationSuccess { tree: res, origin_command: Some(first_cmd) })
            },
        }
    }
}



impl<const N: usize, S: Strategy<N> + Clone + FromConfig<N>> StrategyTree<N, S> {
    /// Records the common command of the layer at position `li`, if it is fully expanded and
    /// has one and none is recorded yet.
    fn refresh_eq(&mut self, li: usize)
        requires
            old(self).wf(),
            li < old(self).layers@.len(),
        ensures
            final(self).wf(),
            final(self).first_layer_absolute_id == old(self).first_layer_absolute_id,
            final(self).highest_sent_layer == old(self).highest_sent_layer,
            final(self).highest_eq_layer == old(self).highest_eq_layer,
            final(self).highest_full_layer == old(self).highest_full_layer,
            final(self).layers@.len() == old(self).layers@.len(),
            forall|k: int| 0 <= k < old(self).layers@.len() ==> (#[trigger] final(self).layers@[k]).nodes_spec()
                == old(self).layers@[k].nodes_spec(),
    {
        let ghost pre = self.layers@;
        let mut l = self.layers.remove(li);
        let _ = l.update_eq_command();
        self.layers.insert(li, l);
        proof {
            assert(self.layers@ =~= pre.update(li as int, l));
            lemma_count_update(pre, li as int, l);
            assert forall|k: int| 0 <= k < self.layers@.len() implies (#[trigger] self.layers@[k]).wf()
                && self.layers@[k].layer_id_spec().0 == self.first_layer_absolute_id.0 + k
                && self.layers@[k].children_in(AbsoluteLayerId((self.first_layer_absolute_id.0 + k + 1) as usize)) by {
                if k != li {
                    assert(self.layers@[k] == pre[k]);
                }
            }
            assert forall|k: int| 0 <= k < pre.len() implies (#[trigger] self.layers@[k]).nodes_spec() == pre[k].nodes_spec() by {
                if k != li {
                    assert(self.layers@[k] == pre[k]);
                }
            }
            assert forall|k: int| self.highest_sent_layer < k <= self.highest_eq_layer implies (
            #[trigger] self.layers@[k]).eq_command_spec() is Some by {
                if k != li {
                    assert(self.layers@[k] == pre[k]);
                }
            }
        }
    }
}

} // verus!
