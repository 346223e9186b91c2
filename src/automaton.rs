use vstd::prelude::*;
use indextree::{Arena, NodeId};
use crate::action::{MaoInteraction, PlayerAction};
use crate::error::Error;

verus! {

#[verifier::external_type_specification]
#[verifier::external_body]
#[verifier::reject_recursive_types(T)]
pub struct ExArena<T>(indextree::Arena<T>);

#[verifier::external_type_specification]
#[verifier::external_body]
pub struct ExNodeId(indextree::NodeId);

/// Handle of the executable handler bound to a leaf; the embedding
/// application maps handles to the code it runs.
pub type CallbackInteraction = usize;

/// One automaton node: a step template, the rule that owns it (meaningful
/// on leaves only) and, on leaves, the bound handler.
#[derive(Debug)]
pub struct NodeState {
    pub action: MaoInteraction,
    pub rule: Option<String>,
    pub func: Option<CallbackInteraction>,
}

/// The live nodes of an arena: for each id, its data and its children in order.
pub uninterp spec fn arena_nodes(a: Arena<NodeState>) -> Map<NodeId, (NodeState, Seq<NodeId>)>;

pub type NodeModel = Map<NodeId, (NodeState, Seq<NodeId>)>;

/// Test that an id differs from `id`.
pub open spec fn not_id(id: NodeId) -> spec_fn(NodeId) -> bool {
    |c: NodeId| c != id
}

/// The arena after a childless node `id` has been taken out.
pub open spec fn without_leaf(n: NodeModel, id: NodeId) -> NodeModel {
    Map::new(
        |k: NodeId| n.dom().contains(k) && k != id,
        |k: NodeId| (n[k].0, n[k].1.filter(not_id(id))),
    )
}

/// Relies on indextree::Arena::new: an arena without nodes.
#[verifier::external_body]
fn arena_new() -> (r: Arena<NodeState>)
    ensures
        arena_nodes(r).dom() == Set::<NodeId>::empty(),
{
    Arena::new()
}

/// Relies on indextree::Arena::new_node: a new live, detached node holding `data`.
#[verifier::external_body]
fn arena_new_node(arena: &mut Arena<NodeState>, data: NodeState) -> (r: NodeId)
    ensures
        !arena_nodes(*old(arena)).dom().contains(r),
        arena_nodes(*final(arena)) == arena_nodes(*old(arena)).insert(r, (data, Seq::empty())),
{
    arena.new_node(data)
}

/// Relies on indextree::NodeId::append_value: a new node holding `data`,
/// appended after the existing children of the live node `parent`.
#[verifier::external_body]
fn arena_append(parent: NodeId, data: NodeState, arena: &mut Arena<NodeState>) -> (r: NodeId)
    requires
        arena_nodes(*old(arena)).dom().contains(parent),
    ensures
        !arena_nodes(*old(arena)).dom().contains(r),
        arena_nodes(*final(arena)) == arena_nodes(*old(arena)).insert(r, (data, Seq::empty())).insert(
            parent,
            (arena_nodes(*old(arena))[parent].0, arena_nodes(*old(arena))[parent].1.push(r)),
        ),
{
    parent.append_value(data, arena)
}

/// Relies on indextree::NodeId::children: the children of a live node, in order.
#[verifier::external_body]
fn arena_children(id: NodeId, arena: &Arena<NodeState>) -> (r: Vec<NodeId>)
    requires
        arena_nodes(*arena).dom().contains(id),
    ensures
        r@ == arena_nodes(*arena)[id].1,
{
    id.children(arena).collect()
}

/// Relies on indexing an indextree::Arena by a live id and indextree::Node::get.
#[verifier::external_body]
fn arena_data(arena: &Arena<NodeState>, id: NodeId) -> (r: &NodeState)
    requires
        arena_nodes(*arena).dom().contains(id),
    ensures
        *r == arena_nodes(*arena)[id].0,
{
    arena[id].get()
}

/// Relies on indexing an indextree::Arena mutably by a live id and
/// indextree::Node::get_mut: the data of that node is replaced.
#[verifier::external_body]
fn arena_set_data(arena: &mut Arena<NodeState>, id: NodeId, data: NodeState)
    requires
        arena_nodes(*old(arena)).dom().contains(id),
    ensures
        arena_nodes(*final(arena)) == arena_nodes(*old(arena)).insert(
            id,
            (data, arena_nodes(*old(arena))[id].1),
        ),
{
    *arena[id].get_mut() = data;
}

/// Relies on indextree::NodeId::is_removed: false exactly for live nodes.
#[verifier::external_body]
fn arena_is_live(id: NodeId, arena: &Arena<NodeState>) -> (r: bool)
    ensures
        r == arena_nodes(*arena).dom().contains(id),
{
    !id.is_removed(arena)
}

/// Relies on indextree::NodeId::remove on a live node without children: the
/// node leaves the arena and the child list of its parent.
#[verifier::external_body]
fn arena_remove(id: NodeId, arena: &mut Arena<NodeState>)
    requires
        arena_nodes(*old(arena)).dom().contains(id),
        arena_nodes(*old(arena))[id].1.len() == 0,
    ensures
        arena_nodes(*final(arena)) == without_leaf(arena_nodes(*old(arena)), id),
{
    id.remove(arena)
}

pub open spec fn rule_model(r: Option<String>) -> Option<Seq<char>> {
    match r {
        Some(s) => Some(s@),
        None => None,
    }
}

/// Leaf identity among siblings: token and owning rule.
pub open spec fn same_leaf(a: NodeState, b: NodeState) -> bool {
    a.action.action == b.action.action && rule_model(a.rule) == rule_model(b.rule)
}

pub open spec fn token_of(n: NodeModel, id: NodeId) -> PlayerAction {
    n[id].0.action.action
}

/// The ids of `cs` whose token is `tok`, in order.
pub open spec fn matching(n: NodeModel, cs: Seq<NodeId>, tok: PlayerAction) -> Seq<NodeId>
    decreases cs.len(),
{
    if cs.len() == 0 {
        Seq::empty()
    } else {
        let rest = matching(n, cs.drop_last(), tok);
        if token_of(n, cs.last()) == tok {
            rest.push(cs.last())
        } else {
            rest
        }
    }
}

/// The candidates among `c` that are leaves, in order.
pub open spec fn leaf_ids(n: NodeModel, c: Seq<NodeId>) -> Seq<NodeId>
    decreases c.len(),
{
    if c.len() == 0 {
        Seq::empty()
    } else if n[c.last()].0.func is Some {
        leaf_ids(n, c.drop_last()).push(c.last())
    } else {
        leaf_ids(n, c.drop_last())
    }
}

/// The candidates among `c` that are branches, in order.
pub open spec fn branch_ids(n: NodeModel, c: Seq<NodeId>) -> Seq<NodeId>
    decreases c.len(),
{
    if c.len() == 0 {
        Seq::empty()
    } else if n[c.last()].0.func is None {
        branch_ids(n, c.drop_last()).push(c.last())
    } else {
        branch_ids(n, c.drop_last())
    }
}

/// Candidates as offered: every leaf, in order, then every branch, in order.
pub open spec fn ordered_candidates(n: NodeModel, c: Seq<NodeId>) -> Seq<NodeId> {
    leaf_ids(n, c) + branch_ids(n, c)
}

proof fn lemma_partition(n: NodeModel, c: Seq<NodeId>)
    ensures
        leaf_ids(n, c).len() + branch_ids(n, c).len() == c.len(),
        forall|j: int| 0 <= j < leaf_ids(n, c).len() ==> n[#[trigger] leaf_ids(n, c)[j]].0.func is Some && c.contains(leaf_ids(n, c)[j]),
        forall|j: int| 0 <= j < branch_ids(n, c).len() ==> n[#[trigger] branch_ids(n, c)[j]].0.func is None && c.contains(branch_ids(n, c)[j]),
    decreases c.len(),
{
    if c.len() > 0 {
        let rest = c.drop_last();
        lemma_partition(n, rest);
        assert forall|x: NodeId| rest.contains(x) implies c.contains(x) by {
            let k = choose|k: int| 0 <= k < rest.len() && rest[k] == x;
            assert(c[k] == x);
        }
        assert(c.contains(c.last())) by {
            assert(c[c.len() - 1] == c.last());
        }
        let l = leaf_ids(n, c);
        let b = branch_ids(n, c);
        assert forall|j: int| 0 <= j < l.len() implies n[#[trigger] l[j]].0.func is Some && c.contains(l[j]) by {
            if j < leaf_ids(n, rest).len() {
                assert(l[j] == leaf_ids(n, rest)[j]);
            }
        }
        assert forall|j: int| 0 <= j < b.len() implies n[#[trigger] b[j]].0.func is None && c.contains(b[j]) by {
            if j < branch_ids(n, rest).len() {
                assert(b[j] == branch_ids(n, rest)[j]);
            }
        }
    }
}

/// Facts about the offered order: a permutation-sized list of candidates
/// where no branch comes before a leaf.
proof fn lemma_ordered(n: NodeModel, c: Seq<NodeId>)
    ensures
        ({
            let o = ordered_candidates(n, c);
            &&& o.len() == c.len()
            &&& forall|j: int| 0 <= j < o.len() ==> c.contains(#[trigger] o[j])
            &&& forall|i: int, j: int|
                0 <= i < j < o.len() && n[#[trigger] o[j]].0.func is Some ==> n[#[trigger] o[i]].0.func is Some
        }),
{
    lemma_partition(n, c);
    let o = ordered_candidates(n, c);
    let ll = leaf_ids(n, c).len();
    assert forall|j: int| 0 <= j < o.len() implies c.contains(#[trigger] o[j]) by {
        if j < ll {
            assert(o[j] == leaf_ids(n, c)[j]);
        } else {
            assert(o[j] == branch_ids(n, c)[j - ll]);
        }
    }
    assert forall|i: int, j: int| 0 <= i < j < o.len() && n[#[trigger] o[j]].0.func is Some implies n[#[trigger] o[i]].0.func is Some by {
        if j >= ll {
            assert(o[j] == branch_ids(n, c)[j - ll]);
        }
        assert(o[i] == leaf_ids(n, c)[i]);
    }
}

proof fn lemma_matching(n: NodeModel, cs: Seq<NodeId>, tok: PlayerAction)
    ensures
        forall|i: int|
            0 <= i < matching(n, cs, tok).len() ==> cs.contains(#[trigger] matching(n, cs, tok)[i])
                && token_of(n, matching(n, cs, tok)[i]) == tok,
    decreases cs.len(),
{
    if cs.len() > 0 {
        let rest = cs.drop_last();
        lemma_matching(n, rest, tok);
        let m = matching(n, cs, tok);
        assert forall|i: int| 0 <= i < m.len() implies cs.contains(#[trigger] m[i]) && token_of(n, m[i]) == tok by {
            if i < matching(n, rest, tok).len() {
                let x = matching(n, rest, tok)[i];
                assert(rest.contains(x));
                let j = choose|j: int| 0 <= j < rest.len() && rest[j] == x;
                assert(cs[j] == x);
            } else {
                assert(m[i] == cs[cs.len() - 1]);
            }
        }
    }
}

/// `d` with the payload of its step replaced by `p`.
pub open spec fn with_payload(d: NodeState, p: Option<crate::action::IdString>) -> NodeState {
    NodeState { action: MaoInteraction { data: p, action: d.action.action }, rule: d.rule, func: d.func }
}

/// The first branch among `cs` whose token is `tok`.
pub open spec fn find_branch(n: NodeModel, cs: Seq<NodeId>, tok: PlayerAction) -> Option<NodeId>
    decreases cs.len(),
{
    if cs.len() == 0 {
        None
    } else if token_of(n, cs[0]) == tok && n[cs[0]].0.func is None {
        Some(cs[0])
    } else {
        find_branch(n, cs.drop_first(), tok)
    }
}

/// The node reached from `from` by following, for each token, the first
/// branch child that carries it.
pub open spec fn walk(n: NodeModel, from: NodeId, toks: Seq<PlayerAction>) -> Option<NodeId>
    decreases toks.len(),
{
    if toks.len() == 0 {
        Some(from)
    } else {
        match walk(n, from, toks.drop_last()) {
            Some(p) => find_branch(n, n[p].1, toks.last()),
            None => None,
        }
    }
}

/// The tokens of all steps but the last.
pub open spec fn branch_tokens(path: Seq<NodeState>) -> Seq<PlayerAction> {
    path.drop_last().map_values(|d: NodeState| d.action.action)
}

/// A non-empty path whose last step alone has a handler.
pub open spec fn action_path(path: Seq<NodeState>) -> bool {
    &&& path.len() > 0
    &&& path.last().func is Some
    &&& forall|i: int| 0 <= i < path.len() - 1 ==> (#[trigger] path[i]).func is None
}

/// A leaf child of `p` has the token and owning rule of `leaf`.
pub open spec fn has_same_leaf(n: NodeModel, p: NodeId, leaf: NodeState) -> bool {
    exists|i: int|
        0 <= i < n[p].1.len() && n[#[trigger] n[p].1[i]].0.func is Some && same_leaf(
            n[n[p].1[i]].0,
            leaf,
        )
}

/// Inserting `path` would add a leaf equal to one already present.
pub open spec fn duplicate_leaf(n: NodeModel, root: NodeId, path: Seq<NodeState>) -> bool {
    match walk(n, root, branch_tokens(path)) {
        Some(p) => has_same_leaf(n, p, path.last()),
        None => false,
    }
}

/// Node of `ids` before index `j`: the root for the first one.
pub open spec fn above(root: NodeId, ids: Seq<NodeId>, j: int) -> NodeId {
    if j == 0 {
        root
    } else {
        ids[j - 1]
    }
}

/// `ids` is a chain from `root` spelling `path`: branches with the path's
/// tokens, then a leaf holding the last step.
pub open spec fn spells(n: NodeModel, root: NodeId, ids: Seq<NodeId>, path: Seq<NodeState>) -> bool {
    &&& ids.len() == path.len()
    &&& forall|j: int|
        0 <= j < ids.len() ==> {
            &&& n.dom().contains(#[trigger] ids[j])
            &&& n[above(root, ids, j)].1.contains(ids[j])
            &&& j < ids.len() - 1 ==> token_of(n, ids[j]) == path[j].action.action && n[ids[j]].0.func is None
            &&& j == ids.len() - 1 ==> n[ids[j]].0 == path[j]
        }
}

/// Some chain from `root` spells `path`.
pub open spec fn spelled(n: NodeModel, root: NodeId, path: Seq<NodeState>) -> bool {
    exists|ids: Seq<NodeId>| spells(n, root, ids, path)
}

/// Every node of `b` was in `a`, with the same data and no new child.
pub open spec fn shrinks(a: NodeModel, b: NodeModel) -> bool {
    forall|k: NodeId|
        #[trigger] b.dom().contains(k) ==> {
            &&& a.dom().contains(k)
            &&& b[k].0 == a[k].0
            &&& forall|x: NodeId| #[trigger] b[k].1.contains(x) ==> a[k].1.contains(x)
        }
}

/// Some path of `paths`, all those before it being spelled, would add a
/// leaf equal to one already present in `n`.
pub open spec fn duplicate_at(n: NodeModel, root: NodeId, paths: Seq<Vec<NodeState>>) -> bool {
    exists|k: int|
        0 <= k < paths.len() && duplicate_leaf(n, root, #[trigger] paths[k]@) && forall|j: int|
            0 <= j < k ==> spelled(n, root, #[trigger] paths[j]@)
}

/// The branch node created for a step: its token and payload, no rule, no handler.
pub open spec fn branch_data(step: NodeState) -> NodeState {
    NodeState { action: step.action, rule: None, func: None }
}

/// `b` is `a` after `path` was inserted along `ids`: the first `k` nodes of
/// `ids` are the existing branches the walk of the path's tokens reaches
/// (and the walk stops there when `k` is before the leaf), the others are
/// new: one branch per missing step, then the leaf, each the only child of
/// the one before, the first appended to the children of the last existing
/// node. Nothing else changes.
pub open spec fn inserted(a: NodeModel, b: NodeModel, root: NodeId, path: Seq<NodeState>, ids: Seq<NodeId>, k: int) -> bool {
    let last = path.len() - 1;
    let toks = branch_tokens(path);
    &&& ids.len() == path.len()
    &&& 0 <= k <= last
    &&& forall|j: int| 0 <= j < k ==> Some(#[trigger] ids[j]) == walk(a, root, toks.subrange(0, j + 1))
    &&& k < last ==> walk(a, root, toks.subrange(0, k + 1)) is None
    &&& forall|j: int| k <= j < ids.len() ==> !a.dom().contains(#[trigger] ids[j])
    &&& forall|q: NodeId| #[trigger] b.dom().contains(q) <==> a.dom().contains(q) || in_suffix(ids, k, q)
    &&& forall|q: NodeId|
        #[trigger] a.dom().contains(q) ==> b[q] == if q == above(root, ids, k) {
            (a[q].0, a[q].1.push(ids[k]))
        } else {
            a[q]
        }
    &&& forall|j: int| k <= j < last ==> #[trigger] b[ids[j]] == (branch_data(path[j]), seq![ids[j + 1]])
    &&& b[ids[last]] == (path[last], Seq::<NodeId>::empty())
}

proof fn lemma_find_branch_some(n: NodeModel, cs: Seq<NodeId>, tok: PlayerAction)
    ensures
        find_branch(n, cs, tok) matches Some(c) ==> cs.contains(c) && token_of(n, c) == tok && n[c].0.func is None,
    decreases cs.len(),
{
    if cs.len() > 0 {
        lemma_find_branch_some(n, cs.drop_first(), tok);
        if let Some(c) = find_branch(n, cs, tok) {
            if !(token_of(n, cs[0]) == tok && n[cs[0]].0.func is None) {
                let i = choose|i: int| 0 <= i < cs.drop_first().len() && cs.drop_first()[i] == c;
                assert(cs[i + 1] == c);
            } else {
                assert(cs[0] == c);
            }
        }
    }
}

proof fn lemma_walk_in_dom(n: NodeModel, root: NodeId, toks: Seq<PlayerAction>)
    requires
        n.dom().contains(root),
        children_live(n),
    ensures
        walk(n, root, toks) matches Some(p) ==> n.dom().contains(p),
    decreases toks.len(),
{
    if toks.len() > 0 {
        lemma_walk_in_dom(n, root, toks.drop_last());
        if let Some(p) = walk(n, root, toks.drop_last()) {
            lemma_find_branch_some(n, n[p].1, toks.last());
            if let Some(c) = find_branch(n, n[p].1, toks.last()) {
                let i = choose|i: int| 0 <= i < n[p].1.len() && n[p].1[i] == c;
            }
        }
    }
}

proof fn lemma_inserted_grows_spells(a: NodeModel, b: NodeModel, root: NodeId, path: Seq<NodeState>, ids: Seq<NodeId>, k: int)
    requires
        inserted(a, b, root, path, ids, k),
        action_path(path),
        a.dom().contains(root),
        children_live(a),
    ensures
        grows(a, b),
        spells(b, root, ids, path),
        spelled(b, root, path),
{
    let toks = branch_tokens(path);
    let last = path.len() - 1;
    assert forall|q: NodeId| #[trigger] a.dom().contains(q) implies {
        &&& b.dom().contains(q)
        &&& b[q].0 == a[q].0
        &&& a[q].1.len() <= b[q].1.len()
        &&& b[q].1.subrange(0, a[q].1.len() as int) == a[q].1
    } by {
        if q == above(root, ids, k) {
            assert(b[q].1.subrange(0, a[q].1.len() as int) =~= a[q].1);
        } else {
            assert(b[q].1.subrange(0, a[q].1.len() as int) =~= a[q].1);
        }
    }
    assert forall|j: int| 0 <= j <= k implies a.dom().contains(#[trigger] above(root, ids, j)) by {
        if j > 0 {
            assert(Some(ids[j - 1]) == walk(a, root, toks.subrange(0, j)));
            lemma_walk_in_dom(a, root, toks.subrange(0, j));
        }
    }
    assert forall|j: int| 0 <= j < ids.len() implies {
        &&& b.dom().contains(#[trigger] ids[j])
        &&& b[above(root, ids, j)].1.contains(ids[j])
        &&& j < ids.len() - 1 ==> token_of(b, ids[j]) == path[j].action.action && b[ids[j]].0.func is None
        &&& j == ids.len() - 1 ==> b[ids[j]].0 == path[j]
    } by {
        if j < k {
            let t = toks.subrange(0, j + 1);
            assert(t.drop_last() =~= toks.subrange(0, j));
            assert(t.last() == toks[j]);
            assert(toks[j] == path[j].action.action);
            let pj = above(root, ids, j);
            assert(a.dom().contains(pj));
            assert(walk(a, root, toks.subrange(0, j)) == Some(pj)) by {
                if j > 0 {
                    assert(Some(ids[j - 1]) == walk(a, root, toks.subrange(0, j)));
                } else {
                    assert(toks.subrange(0, 0) =~= Seq::<PlayerAction>::empty());
                }
            }
            lemma_find_branch_some(a, a[pj].1, toks[j]);
            let i2 = choose|i2: int| 0 <= i2 < a[pj].1.len() && a[pj].1[i2] == ids[j];
            assert(a.dom().contains(ids[j]));
            assert(b[pj].1.contains(ids[j])) by {
                assert(b[pj].1.subrange(0, a[pj].1.len() as int) == a[pj].1);
                assert(b[pj].1[i2] == ids[j]);
            }
            assert(j < last);
            assert(b[ids[j]].0 == a[ids[j]].0);
        } else {
            assert(in_suffix(ids, k, ids[j]));
            if j == k {
                let pk = above(root, ids, k);
                assert(a.dom().contains(pk));
                assert(b[pk].1 == a[pk].1.push(ids[k]));
                assert(b[pk].1[a[pk].1.len() as int] == ids[k]);
            } else {
                assert(b[ids[j - 1]].1 == seq![ids[j]]);
                assert(seq![ids[j]][0] == ids[j]);
            }
        }
    }
    assert(spells(b, root, ids, path));
}

/// `b` is `a` after `path` was added: no equal leaf was there, and the
/// insertion is exactly as `inserted` describes it.
pub open spec fn path_added(a: NodeModel, b: NodeModel, root: NodeId, path: Seq<NodeState>) -> bool {
    !duplicate_leaf(a, root, path) && exists|ids: Seq<NodeId>, k: int| inserted(a, b, root, path, ids, k)
}

/// The trees `ts` go from `ts[0]` through the addition of each path of
/// `paths`, in order.
pub open spec fn added_in_turn(ts: Seq<NodeModel>, root: NodeId, paths: Seq<Vec<NodeState>>) -> bool {
    &&& ts.len() == paths.len() + 1
    &&& forall|q: int| 0 <= q < paths.len() ==> #[trigger] path_added(ts[q], ts[q + 1], root, paths[q]@)
}

/// `k` is one of the nodes of `ids` from position `m` on.
pub open spec fn in_suffix(ids: Seq<NodeId>, m: int, k: NodeId) -> bool {
    exists|j: int| m <= j < ids.len() && ids[j] == k
}

/// `ids` is how `path` resolves in `n`: for each branch step, the node that
/// the first-branch walk of the tokens so far reaches, then a leaf under the
/// last of them equal to the path's leaf by token and owning rule.
pub open spec fn resolves(n: NodeModel, root: NodeId, path: Seq<NodeState>, ids: Seq<NodeId>) -> bool {
    &&& ids.len() == path.len()
    &&& ids.len() > 0
    &&& forall|j: int|
        0 <= j < ids.len() - 1 ==> Some(#[trigger] ids[j]) == walk(n, root, branch_tokens(path).subrange(0, j + 1))
    &&& n[above(root, ids, ids.len() - 1)].1.contains(ids.last())
    &&& n[ids.last()].0.func is Some
    &&& same_leaf(n[ids.last()].0, path.last())
}

/// `b` is `a` once the nodes of `ids` from position `m` on (the leaf, then
/// the branches it left without children) are taken out: they were left
/// without children, the node above them keeps a child, and every other node
/// keeps its data and the children that remain.
pub open spec fn pruned(a: NodeModel, b: NodeModel, ids: Seq<NodeId>, m: int) -> bool {
    &&& 0 <= m < ids.len()
    &&& forall|k: NodeId| #[trigger] b.dom().contains(k) <==> a.dom().contains(k) && !in_suffix(ids, m, k)
    &&& forall|k: NodeId|
        #[trigger] b.dom().contains(k) ==> b[k].0 == a[k].0 && forall|x: NodeId|
            #[trigger] b[k].1.contains(x) <==> a[k].1.contains(x) && b.dom().contains(x)
    &&& forall|j: int, x: NodeId| m <= j < ids.len() && #[trigger] a[ids[j]].1.contains(x) ==> !b.dom().contains(x)
    &&& m > 0 ==> b.dom().contains(ids[m - 1]) && b[ids[m - 1]].1.len() > 0
}

/// `b` is `a` after `path` is taken out: unchanged when the path's leaf is
/// not there; otherwise pruned along the chain the path resolves to.
pub open spec fn path_removed(a: NodeModel, b: NodeModel, root: NodeId, path: Seq<NodeState>) -> bool {
    if duplicate_leaf(a, root, path) {
        exists|ids: Seq<NodeId>, m: int| resolves(a, root, path, ids) && pruned(a, b, ids, m)
    } else {
        b == a
    }
}

/// `b` keeps every node of `a` with its data, and its children as a prefix.
pub open spec fn grows(a: NodeModel, b: NodeModel) -> bool {
    forall|k: NodeId|
        #[trigger] a.dom().contains(k) ==> {
            &&& b.dom().contains(k)
            &&& b[k].0 == a[k].0
            &&& a[k].1.len() <= b[k].1.len()
            &&& b[k].1.subrange(0, a[k].1.len() as int) == a[k].1
        }
}

proof fn lemma_grows_contains(a: NodeModel, b: NodeModel, k: NodeId, x: NodeId)
    requires
        grows(a, b),
        a.dom().contains(k),
        a[k].1.contains(x),
    ensures
        b[k].1.contains(x),
{
    let j = choose|j: int| 0 <= j < a[k].1.len() && a[k].1[j] == x;
    assert(b[k].1.subrange(0, a[k].1.len() as int)[j] == b[k].1[j]);
}

proof fn lemma_grows_trans(a: NodeModel, b: NodeModel, c: NodeModel)
    requires
        grows(a, b),
        grows(b, c),
    ensures
        grows(a, c),
{
    assert forall|k: NodeId| #[trigger] a.dom().contains(k) implies {
        &&& c.dom().contains(k)
        &&& c[k].0 == a[k].0
        &&& a[k].1.len() <= c[k].1.len()
        &&& c[k].1.subrange(0, a[k].1.len() as int) == a[k].1
    } by {
        assert(b.dom().contains(k));
        assert(c[k].1.subrange(0, a[k].1.len() as int) =~= c[k].1.subrange(
            0,
            b[k].1.len() as int,
        ).subrange(0, a[k].1.len() as int));
    }
}

proof fn lemma_grows_chain(a: NodeModel, b: NodeModel, root: NodeId, p: Seq<NodeId>)
    requires
        grows(a, b),
        a.dom().contains(root),
        chain_from(a, root, p),
    ensures
        chain_from(b, root, p),
{
    assert forall|i: int| 0 <= i < p.len() implies {
        &&& b.dom().contains(#[trigger] p[i])
        &&& b[p[i]].0.func is None
        &&& b[if i == 0 { root } else { p[i - 1] }].1.contains(p[i])
    } by {
        let q = if i == 0 { root } else { p[i - 1] };
        assert(a.dom().contains(q));
        lemma_grows_contains(a, b, q, p[i]);
    }
}

proof fn lemma_grows_refl(a: NodeModel)
    ensures
        grows(a, a),
{
    assert forall|k: NodeId| #[trigger] a.dom().contains(k) implies a[k].1.subrange(0, a[k].1.len() as int) == a[k].1 by {
        assert(a[k].1.subrange(0, a[k].1.len() as int) =~= a[k].1);
    }
}

proof fn lemma_walk_none(n: NodeModel, root: NodeId, toks: Seq<PlayerAction>, k: int)
    requires
        0 <= k <= toks.len(),
        walk(n, root, toks.subrange(0, k)) is None,
    ensures
        walk(n, root, toks) is None,
    decreases toks.len() - k,
{
    if k < toks.len() {
        assert(toks.subrange(0, k + 1).drop_last() =~= toks.subrange(0, k));
        lemma_walk_none(n, root, toks, k + 1);
    } else {
        assert(toks.subrange(0, k) =~= toks);
    }
}

proof fn lemma_grows_spells(a: NodeModel, b: NodeModel, root: NodeId, ids: Seq<NodeId>, path: Seq<NodeState>)
    requires
        grows(a, b),
        a.dom().contains(root),
        spells(a, root, ids, path),
    ensures
        spells(b, root, ids, path),
{
    assert forall|j: int| 0 <= j < ids.len() implies {
        &&& b.dom().contains(#[trigger] ids[j])
        &&& b[above(root, ids, j)].1.contains(ids[j])
        &&& j < ids.len() - 1 ==> token_of(b, ids[j]) == path[j].action.action && b[ids[j]].0.func is None
        &&& j == ids.len() - 1 ==> b[ids[j]].0 == path[j]
    } by {
        assert(a.dom().contains(above(root, ids, j)));
        lemma_grows_contains(a, b, above(root, ids, j), ids[j]);
    }
}

proof fn lemma_matching_none(n: NodeModel, cs: Seq<NodeId>, tok: PlayerAction)
    requires
        forall|i: int| 0 <= i < cs.len() ==> token_of(n, #[trigger] cs[i]) != tok,
    ensures
        matching(n, cs, tok) == Seq::<NodeId>::empty(),
    decreases cs.len(),
{
    if cs.len() > 0 {
        lemma_matching_none(n, cs.drop_last(), tok);
    }
}

proof fn lemma_matching_single(n: NodeModel, cs: Seq<NodeId>, tok: PlayerAction, x: NodeId)
    requires
        cs.no_duplicates(),
        cs.contains(x),
        token_of(n, x) == tok,
        forall|i: int| 0 <= i < cs.len() && token_of(n, #[trigger] cs[i]) == tok ==> cs[i] == x,
    ensures
        matching(n, cs, tok) == seq![x],
    decreases cs.len(),
{
    let rest = cs.drop_last();
    if cs.last() == x {
        assert forall|i: int| 0 <= i < rest.len() implies token_of(n, #[trigger] rest[i]) != tok by {
            if token_of(n, rest[i]) == tok {
                assert(cs[i] == x);
                assert(cs[i] == cs[cs.len() - 1]);
            }
        }
        lemma_matching_none(n, rest, tok);
        assert(Seq::<NodeId>::empty().push(x) =~= seq![x]);
    } else {
        let k = choose|k: int| 0 <= k < cs.len() && cs[k] == x;
        assert(rest[k] == x);
        assert forall|a: int, b: int| 0 <= a < b < rest.len() implies rest[a] != rest[b] by {
            assert(cs[a] == rest[a] && cs[b] == rest[b]);
        }
        assert forall|i: int| 0 <= i < rest.len() && token_of(n, #[trigger] rest[i]) == tok implies rest[i] == x by {
            assert(cs[i] == rest[i]);
        }
        lemma_matching_single(n, rest, tok, x);
        assert(token_of(n, cs.last()) != tok);
    }
}

/// Replaying an unambiguous action path, one step: along a chain of nodes
/// that spells the path from the root, at a position where the chain node
/// is the only child of its parent with the step's token, that node is the
/// one candidate the step is offered; it is a branch before the last step
/// and the leaf at the last, so the step advances or resolves the leaf.
pub proof fn law_unambiguous_step_has_one_candidate(
    n: NodeModel,
    root: NodeId,
    ids: Seq<NodeId>,
    path: Seq<NodeState>,
    j: int,
)
    requires
        action_path(path),
        spells(n, root, ids, path),
        0 <= j < ids.len(),
        n[above(root, ids, j)].1.no_duplicates(),
        forall|i: int|
            0 <= i < n[above(root, ids, j)].1.len() && token_of(n, #[trigger] n[above(root, ids, j)].1[i])
                == path[j].action.action ==> n[above(root, ids, j)].1[i] == ids[j],
    ensures
        matching(n, n[above(root, ids, j)].1, path[j].action.action) == seq![ids[j]],
        j < ids.len() - 1 ==> n[ids[j]].0.func is None,
        j == ids.len() - 1 ==> n[ids[j]].0.func is Some && n[ids[j]].0 == path[j],
{
    assert(token_of(n, ids[j]) == path[j].action.action);
    lemma_matching_single(n, n[above(root, ids, j)].1, path[j].action.action, ids[j]);
}

/// Sibling identity for structural comparison: branches by token, leaves
/// by token, owning rule and handler.
pub open spec fn same_key(x: NodeState, y: NodeState) -> bool {
    &&& (x.func is Some) == (y.func is Some)
    &&& x.action.action == y.action.action
    &&& x.func is Some ==> rule_model(x.rule) == rule_model(y.rule) && x.func == y.func
}

/// The subtrees at `x` in `a` and at `y` in `b` are alike, within `fuel`
/// levels: as many children, and each child of `x` matches, by key and
/// recursively, some child of `y`; the order of children does not matter.
pub open spec fn same_tree(a: NodeModel, x: NodeId, b: NodeModel, y: NodeId, fuel: nat) -> bool
    decreases fuel, 3int, 0int,
{
    if fuel == 0 {
        false
    } else {
        a[x].1.len() == b[y].1.len() && all_matched(a, x, b, y, 0, (fuel - 1) as nat)
    }
}

/// Every child of `x` from the `i`-th on matches some child of `y`.
pub open spec fn all_matched(a: NodeModel, x: NodeId, b: NodeModel, y: NodeId, i: int, f: nat) -> bool
    decreases f + 1, 2int, a[x].1.len() - i,
{
    if i < 0 || i >= a[x].1.len() {
        true
    } else {
        any_matched(a, x, b, y, i, 0, f) && all_matched(a, x, b, y, i + 1, f)
    }
}

/// The `i`-th child of `x` matches a child of `y` from the `j`-th on.
pub open spec fn any_matched(a: NodeModel, x: NodeId, b: NodeModel, y: NodeId, i: int, j: int, f: nat) -> bool
    decreases f + 1, 1int, b[y].1.len() - j,
{
    if j < 0 || j >= b[y].1.len() {
        false
    } else {
        (same_key(a[a[x].1[i]].0, b[b[y].1[j]].0) && same_tree(a, a[x].1[i], b, b[y].1[j], f)) || any_matched(
            a,
            x,
            b,
            y,
            i,
            j + 1,
            f,
        )
    }
}

/// Result of feeding one step to the automaton.
#[derive(Debug)]
pub enum MaoInteractionResult {
    /// No child of the current state has the step's token.
    NoInteractionFound,
    /// The step resolves a leaf: the full step sequence and the bound handler.
    Leaf { interactions: Vec<MaoInteraction>, func: CallbackInteraction },
    /// Several children match: the candidates, any branch placed last.
    Nodes(Vec<NodeState>),
    /// The cursor moved into the single matching branch.
    AdvancedNextState,
}

impl Clone for NodeState {
    fn clone(&self) -> (r: Self)
        ensures
            r == *self,
    {
        let rule = match &self.rule {
            Some(s) => Some(s.clone()),
            None => None,
        };
        NodeState { action: self.action.clone(), rule, func: self.func }
    }
}

impl NodeState {
    pub fn new(action: MaoInteraction, func: Option<CallbackInteraction>, rule: Option<String>) -> (r: Self)
        ensures
            r.action == action,
            r.func == func,
            r.rule == rule,
    {
        NodeState { action, rule, func }
    }

    /// Same token and same owning rule.
    pub fn same_leaf_as(&self, other: &NodeState) -> (r: bool)
        ensures
            r == same_leaf(*self, *other),
    {
        if self.action.action != other.action.action {
            return false;
        }
        match (&self.rule, &other.rule) {
            (Some(a), Some(b)) => a.eq(b),
            (None, None) => true,
            _ => false,
        }
    }
}

/// A prefix tree over action paths, with a cursor.
pub struct Automaton {
    arena: Arena<NodeState>,
    root: NodeId,
    /// The nodes entered since the root, first to last; the cursor is the last.
    path: Vec<NodeId>,
    previous_interactions: Vec<MaoInteraction>,
}

/// `path` is a chain of branches going down from `root`, each a child of the one before.
pub open spec fn chain_from(n: NodeModel, root: NodeId, path: Seq<NodeId>) -> bool {
    forall|i: int|
        0 <= i < path.len() ==> {
            &&& n.dom().contains(#[trigger] path[i])
            &&& n[path[i]].0.func is None
            &&& n[if i == 0 { root } else { path[i - 1] }].1.contains(path[i])
        }
}

/// No node lists a child twice, and no node has two branch children with
/// the same token.
pub open spec fn siblings_ok(n: NodeModel) -> bool {
    forall|k: NodeId|
        #[trigger] n.dom().contains(k) ==> n[k].1.no_duplicates() && forall|x: NodeId, y: NodeId|
            #![trigger n[k].1.contains(x), n[k].1.contains(y)]
            n[k].1.contains(x) && n[k].1.contains(y) && n[x].0.func is None && n[y].0.func is None && token_of(n, x)
                == token_of(n, y) ==> x == y
}

proof fn lemma_no_dup_parts(s: Seq<NodeId>)
    requires
        s.len() > 0,
        s.no_duplicates(),
    ensures
        s.drop_last().no_duplicates(),
        !s.drop_last().contains(s.last()),
{
    let rest = s.drop_last();
    assert forall|a: int, b: int| 0 <= a < rest.len() && 0 <= b < rest.len() && a != b implies rest[a] != rest[b] by {
        assert(s[a] == rest[a] && s[b] == rest[b]);
    }
    if rest.contains(s.last()) {
        let i = choose|i: int| 0 <= i < rest.len() && rest[i] == s.last();
        assert(s[i] == s[s.len() - 1]);
    }
}

proof fn lemma_push_no_dup(f: Seq<NodeId>, x: NodeId)
    requires
        f.no_duplicates(),
        !f.contains(x),
    ensures
        f.push(x).no_duplicates(),
{
    assert forall|a: int, b: int| 0 <= a < f.push(x).len() && 0 <= b < f.push(x).len() && a != b implies f.push(x)[a] != f.push(x)[b] by {
        if a == f.len() {
            assert(f.contains(f[b]));
        } else if b == f.len() {
            assert(f.contains(f[a]));
        }
    }
}

proof fn lemma_matching_no_dup(n: NodeModel, cs: Seq<NodeId>, tok: PlayerAction)
    requires
        cs.no_duplicates(),
    ensures
        matching(n, cs, tok).no_duplicates(),
    decreases cs.len(),
{
    if cs.len() > 0 {
        lemma_no_dup_parts(cs);
        lemma_matching_no_dup(n, cs.drop_last(), tok);
        lemma_matching(n, cs.drop_last(), tok);
        let f = matching(n, cs.drop_last(), tok);
        if f.contains(cs.last()) {
            let i = choose|i: int| 0 <= i < f.len() && f[i] == cs.last();
            assert(cs.drop_last().contains(f[i]));
        }
        if token_of(n, cs.last()) == tok {
            lemma_push_no_dup(f, cs.last());
        }
    }
}

proof fn lemma_branch_ids_no_dup(n: NodeModel, c: Seq<NodeId>)
    requires
        c.no_duplicates(),
    ensures
        branch_ids(n, c).no_duplicates(),
    decreases c.len(),
{
    if c.len() > 0 {
        lemma_no_dup_parts(c);
        lemma_branch_ids_no_dup(n, c.drop_last());
        lemma_partition(n, c.drop_last());
        let f = branch_ids(n, c.drop_last());
        if f.contains(c.last()) {
            let i = choose|i: int| 0 <= i < f.len() && f[i] == c.last();
            assert(c.drop_last().contains(f[i]));
        }
        if n[c.last()].0.func is None {
            lemma_push_no_dup(f, c.last());
        }
    }
}

/// Among siblings holding at most one branch per token, the candidates for
/// a token hold at most one branch.
proof fn lemma_one_branch_candidate(n: NodeModel, p: NodeId, tok: PlayerAction)
    requires
        siblings_ok(n),
        n.dom().contains(p),
    ensures
        branch_ids(n, matching(n, n[p].1, tok)).len() <= 1,
{
    let c = matching(n, n[p].1, tok);
    lemma_matching(n, n[p].1, tok);
    lemma_matching_no_dup(n, n[p].1, tok);
    lemma_branch_ids_no_dup(n, c);
    lemma_partition(n, c);
    let b = branch_ids(n, c);
    if b.len() >= 2 {
        assert(c.contains(b[0]) && c.contains(b[1]));
        let i0 = choose|i: int| 0 <= i < c.len() && c[i] == b[0];
        let i1 = choose|i: int| 0 <= i < c.len() && c[i] == b[1];
        assert(n[p].1.contains(c[i0]) && token_of(n, c[i0]) == tok);
        assert(n[p].1.contains(c[i1]) && token_of(n, c[i1]) == tok);
        assert(n[p].1.contains(b[0]) && n[p].1.contains(b[1]));
        assert(b[0] == b[1]);
    }
}

proof fn lemma_find_branch_none(n: NodeModel, cs: Seq<NodeId>, tok: PlayerAction)
    requires
        find_branch(n, cs, tok) is None,
    ensures
        forall|x: NodeId| cs.contains(x) && n[x].0.func is None ==> token_of(n, x) != tok,
    decreases cs.len(),
{
    if cs.len() > 0 {
        lemma_find_branch_none(n, cs.drop_first(), tok);
        assert forall|x: NodeId| cs.contains(x) && n[x].0.func is None implies token_of(n, x) != tok by {
            let i = choose|i: int| 0 <= i < cs.len() && cs[i] == x;
            if i > 0 {
                assert(cs.drop_first()[i - 1] == x);
            }
        }
    }
}

proof fn lemma_filter_no_dup(s: Seq<NodeId>, p: spec_fn(NodeId) -> bool)
    requires
        s.no_duplicates(),
    ensures
        s.filter(p).no_duplicates(),
    decreases s.len(),
{
    reveal(Seq::filter);
    if s.len() > 0 {
        let rest = s.drop_last();
        assert(rest.no_duplicates()) by {
            assert forall|a: int, b: int| 0 <= a < rest.len() && 0 <= b < rest.len() && a != b implies rest[a] != rest[b] by {
                assert(s[a] == rest[a] && s[b] == rest[b]);
            }
        }
        lemma_filter_no_dup(rest, p);
        if p(s.last()) {
            let f = rest.filter(p);
            assert(!f.contains(s.last())) by {
                if f.contains(s.last()) {
                    rest.lemma_filter_contains_rev(p, s.last());
                    let i = choose|i: int| 0 <= i < rest.len() && rest[i] == s.last();
                    assert(s[i] == s[s.len() - 1]);
                }
            }
            assert forall|a: int, b: int| 0 <= a < f.push(s.last()).len() && 0 <= b < f.push(s.last()).len() && a != b
                implies f.push(s.last())[a] != f.push(s.last())[b] by {
                if a == f.len() {
                    assert(f[b] != s.last()) by {
                        if f[b] == s.last() {
                            assert(f.contains(s.last()));
                        }
                    }
                } else if b == f.len() {
                    assert(f[a] != s.last()) by {
                        if f[a] == s.last() {
                            assert(f.contains(s.last()));
                        }
                    }
                }
            }
        }
    }
}

/// Every child of a live node is live.
pub open spec fn children_live(n: NodeModel) -> bool {
    forall|k: NodeId, i: int|
        n.dom().contains(k) && 0 <= i < n[k].1.len() ==> n.dom().contains(#[trigger] n[k].1[i])
}

impl Automaton {
    pub closed spec fn nodes(&self) -> NodeModel {
        arena_nodes(self.arena)
    }

    pub closed spec fn root_id(&self) -> NodeId {
        self.root
    }

    pub closed spec fn cursor_path(&self) -> Seq<NodeId> {
        self.path@
    }

    pub closed spec fn previous(&self) -> Seq<MaoInteraction> {
        self.previous_interactions@
    }

    /// The current state: the last node entered, or the root.
    pub open spec fn current(&self) -> NodeId {
        if self.cursor_path().len() == 0 {
            self.root_id()
        } else {
            self.cursor_path().last()
        }
    }

    /// The steps committed since the root, with their payloads.
    pub open spec fn executed(&self) -> Seq<MaoInteraction> {
        self.cursor_path().map_values(|id: NodeId| self.nodes()[id].0.action)
    }

    /// The live children of the current state whose token is `tok`.
    pub open spec fn candidates(&self, tok: PlayerAction) -> Seq<NodeId> {
        matching(self.nodes(), self.nodes()[self.current()].1, tok)
    }

    pub open spec fn wf(&self) -> bool {
        &&& self.nodes().dom().contains(self.root_id())
        &&& self.nodes()[self.root_id()].0.func is None
        &&& children_live(self.nodes())
        &&& forall|k: NodeId|
            #[trigger] self.nodes().dom().contains(k) && self.nodes()[k].0.func is Some ==> self.nodes()[k].1.len()
                == 0
        &&& forall|k: NodeId, i: int|
            self.nodes().dom().contains(k) && 0 <= i < self.nodes()[k].1.len() ==> #[trigger] self.nodes()[k].1[i]
                != self.root_id()
        &&& chain_from(self.nodes(), self.root_id(), self.cursor_path())
        &&& siblings_ok(self.nodes())
    }

    /// An empty automaton: only the root.
    pub fn new() -> (r: Self)
        ensures
            r.wf(),
            r.cursor_path().len() == 0,
            r.nodes().dom() == set![r.root_id()],
            r.nodes()[r.root_id()].1.len() == 0,
    {
        let mut arena = arena_new();
        let root_data = NodeState::new(MaoInteraction::default(), None, None);
        let root = arena_new_node(&mut arena, root_data);
        let r = Automaton { arena, root, path: Vec::new(), previous_interactions: Vec::new() };
        assert(r.nodes().dom() =~= set![root]);
        r
    }

    fn current_id(&self) -> (r: NodeId)
        requires
            self.wf(),
        ensures
            r == self.current(),
            self.nodes().dom().contains(r),
    {
        if self.path.len() == 0 {
            self.root
        } else {
            self.path[self.path.len() - 1]
        }
    }

    /// Ids among `cs` whose token is `tok`, in order.
    fn search_type(&self, cs: &Vec<NodeId>, tok: PlayerAction) -> (r: Vec<NodeId>)
        requires
            self.wf(),
            forall|i: int| 0 <= i < cs@.len() ==> self.nodes().dom().contains(#[trigger] cs@[i]),
        ensures
            r@ == matching(self.nodes(), cs@, tok),
            forall|i: int| 0 <= i < r@.len() ==> self.nodes().dom().contains(#[trigger] r@[i]),
    {
        let mut r: Vec<NodeId> = Vec::new();
        let mut i: usize = 0;
        while i < cs.len()
            invariant
                i <= cs@.len(),
                r@ == matching(self.nodes(), cs@.subrange(0, i as int), tok),
                forall|j: int| 0 <= j < r@.len() ==> self.nodes().dom().contains(#[trigger] r@[j]),
                forall|j: int| 0 <= j < cs@.len() ==> self.nodes().dom().contains(#[trigger] cs@[j]),
            decreases cs@.len() - i,
        {
            let id = cs[i];
            assert(cs@.subrange(0, i as int + 1).drop_last() =~= cs@.subrange(0, i as int));
            let d = arena_data(&self.arena, id);
            if d.action.action == tok {
                r.push(id);
            }
            i = i + 1;
        }
        assert(cs@.subrange(0, cs@.len() as int) =~= cs@);
        r
    }

    /// The steps committed since the root, with their payloads.
    #[verifier::rlimit(40)]
    fn executed_interactions(&self) -> (r: Vec<MaoInteraction>)
        requires
            self.wf(),
        ensures
            r@ == self.executed(),
    {
        let mut r: Vec<MaoInteraction> = Vec::new();
        let mut i: usize = 0;
        while i < self.path.len()
            invariant
                self.wf(),
                i <= self.path@.len(),
                r@ == self.path@.subrange(0, i as int).map_values(
                    |id: NodeId| self.nodes()[id].0.action,
                ),
            decreases self.path@.len() - i,
        {
            let d = arena_data(&self.arena, self.path[i]);
            r.push(d.action.clone());
            i = i + 1;
            assert(self.path@.subrange(0, i as int).map_values(
                |id: NodeId| self.nodes()[id].0.action,
            ) =~= self.path@.subrange(0, i - 1 as int).map_values(
                |id: NodeId| self.nodes()[id].0.action,
            ).push(self.nodes()[self.path@[i - 1]].0.action));
        }
        assert(self.path@.subrange(0, self.path@.len() as int) =~= self.path@);
        r
    }

    /// Feeds one step. With no matching child of the current state, nothing
    /// happens; with one leaf, the whole step sequence and its handler are
    /// returned and the cursor goes back to the root; with one branch, the
    /// cursor enters it and the step's payload is stored on it; with several,
    /// they are all returned, the leaves first and the branches last.
    #[verifier::rlimit(50)]
    pub fn on_action(&mut self, interaction: MaoInteraction) -> (r: MaoInteractionResult)
        requires
            old(self).wf(),
        ensures
            final(self).wf(),
            final(self).root_id() == old(self).root_id(),
            ({
                let n = old(self).nodes();
                let c = old(self).candidates(interaction.action);
                &&& c.len() == 0 ==> r is NoInteractionFound && final(self).nodes() == n
                    && final(self).cursor_path() == old(self).cursor_path() && final(self).previous() == old(self).previous()
                &&& c.len() == 1 && n[c[0]].0.func is Some ==> (r matches MaoInteractionResult::Leaf {
                    interactions,
                    func,
                } && interactions@ == old(self).executed().push(interaction) && n[c[0]].0.func == Some(
                    func,
                )) && final(self).nodes() == n && final(self).cursor_path().len() == 0
                    && final(self).previous() == old(self).executed().push(interaction)
                &&& c.len() == 1 && n[c[0]].0.func is None ==> r is AdvancedNextState
                    && final(self).previous() == old(self).previous()
                    && final(self).cursor_path() == old(self).cursor_path().push(c[0])
                    && final(self).nodes() == n.insert(
                    c[0],
                    (with_payload(n[c[0]].0, interaction.data), n[c[0]].1),
                )
                &&& c.len() > 1 ==> (r matches MaoInteractionResult::Nodes(v) && v@ == ordered_candidates(n, c).map_values(
                    |id: NodeId| n[id].0,
                ) && v@.len() == c.len() && (forall|i: int, j: int|
                    0 <= i < j < v@.len() && (#[trigger] v@[j]).func is Some ==> (#[trigger] v@[i]).func is Some)
                    && forall|i: int| 0 <= i < v@.len() - 1 ==> (#[trigger] v@[i]).func is Some)
                    && final(self).nodes() == n && final(self).cursor_path() == old(self).cursor_path()
                    && final(self).previous() == old(self).previous()
            }),
    {
        let ghost n = self.nodes();
        let cur = self.current_id();
        let cs = arena_children(cur, &self.arena);
        assert forall|i: int| 0 <= i < cs@.len() implies self.nodes().dom().contains(#[trigger] cs@[i]) by {
            assert(cs@[i] == n[cur].1[i]);
        }
        let ids = self.search_type(&cs, interaction.action);
        proof {
            lemma_matching(n, cs@, interaction.action);
        }
        if ids.len() == 0 {
            return MaoInteractionResult::NoInteractionFound;
        }
        if ids.len() == 1 {
            let id = ids[0];
            let d = arena_data(&self.arena, id);
            let f = d.func;
            match f {
                Some(func) => {
                    let mut interactions = self.executed_interactions();
                    interactions.push(interaction);
                    self.reset();
                    self.previous_interactions = clone_interactions(&interactions);
                    return MaoInteractionResult::Leaf { interactions, func };
                },
                None => {
                    let mut nd = d.clone();
                    nd.action.data = interaction.data;
                    assert(nd == with_payload(n[id].0, interaction.data));
                    arena_set_data(&mut self.arena, id, nd);
                    self.path.push(id);
                    proof {
                        let m = self.nodes();
                        assert(ids@[0] == id);
                        assert(cs@.contains(id));
                        assert forall|k: NodeId| n.dom().contains(k) implies m[k].0.func == n[k].0.func
                            && m[k].1 == n[k].1 by {}
                        assert(m.dom() == n.dom());
                        assert forall|k: NodeId, i: int| m.dom().contains(k) && 0 <= i < m[k].1.len()
                            implies m.dom().contains(#[trigger] m[k].1[i]) by {
                            assert(m[k].1[i] == n[k].1[i]);
                        }
                        assert forall|k: NodeId, i: int| m.dom().contains(k) && 0 <= i < m[k].1.len()
                            implies #[trigger] m[k].1[i] != self.root by {
                            assert(m[k].1[i] == n[k].1[i]);
                        }
                        let p = self.path@;
                        assert forall|i: int| 0 <= i < p.len() implies {
                            &&& m.dom().contains(#[trigger] p[i])
                            &&& m[p[i]].0.func is None
                            &&& m[if i == 0 { self.root } else { p[i - 1] }].1.contains(p[i])
                        } by {
                            if i < p.len() - 1 {
                                assert(p[i] == old(self).path@[i]);
                            }
                        }
                    }
                    return MaoInteractionResult::AdvancedNextState;
                },
            }
        }
        let ord = self.order_candidates(&ids);
        proof {
            lemma_ordered(n, ids@);
            assert forall|j: int| 0 <= j < ord@.len() implies self.nodes().dom().contains(#[trigger] ord@[j]) by {
                assert(ids@.contains(ord@[j]));
            }
        }
        let nodes = self.nodes_from_ids(&ord);
        proof {
            lemma_one_branch_candidate(n, self.current(), interaction.action);
            lemma_partition(n, ids@);
            let ll = leaf_ids(n, ids@).len();
            assert forall|i: int| 0 <= i < nodes@.len() - 1 implies (#[trigger] nodes@[i]).func is Some by {
                assert(nodes@[i] == n[ord@[i]].0);
                assert(i < ll);
                assert(ord@[i] == leaf_ids(n, ids@)[i]);
            }
            assert forall|i: int, j: int| 0 <= i < j < nodes@.len() && (#[trigger] nodes@[j]).func is Some implies (#[trigger] nodes@[i]).func is Some by {
                assert(nodes@[j] == n[ord@[j]].0);
                assert(nodes@[i] == n[ord@[i]].0);
            }
        }
        MaoInteractionResult::Nodes(nodes)
    }

    /// The first branch child of the live node `p` whose token is `tok`.
    fn get_node_id_of(&self, p: NodeId, tok: PlayerAction) -> (r: Option<NodeId>)
        requires
            self.wf(),
            self.nodes().dom().contains(p),
        ensures
            r == find_branch(self.nodes(), self.nodes()[p].1, tok),
            r matches Some(c) ==> self.nodes().dom().contains(c) && self.nodes()[p].1.contains(c)
                && token_of(self.nodes(), c) == tok && self.nodes()[c].0.func is None,
    {
        let ghost n = self.nodes();
        let cs = arena_children(p, &self.arena);
        let mut i: usize = 0;
        assert(cs@.subrange(0, cs@.len() as int) =~= cs@);
        while i < cs.len()
            invariant
                self.wf(),
                n == self.nodes(),
                n.dom().contains(p),
                cs@ == n[p].1,
                i <= cs@.len(),
                find_branch(n, cs@, tok) == find_branch(n, cs@.subrange(i as int, cs@.len() as int), tok),
            decreases cs@.len() - i,
        {
            let c = cs[i];
            assert(cs@.subrange(i as int, cs@.len() as int).drop_first() =~= cs@.subrange(
                i + 1 as int,
                cs@.len() as int,
            ));
            assert(n.dom().contains(n[p].1[i as int]));
            let d = arena_data(&self.arena, c);
            if d.action.action == tok && d.func.is_none() {
                assert(cs@.subrange(i as int, cs@.len() as int)[0] == c);
                assert(cs@.contains(c));
                return Some(c);
            }
            i = i + 1;
        }
        None
    }

    /// The node reached from the root by the branch tokens of `path`, if any.
    fn walk_branches(&self, path: &Vec<NodeState>) -> (r: Option<NodeId>)
        requires
            self.wf(),
            path@.len() > 0,
        ensures
            r == walk(self.nodes(), self.root_id(), branch_tokens(path@)),
            r matches Some(p) ==> self.nodes().dom().contains(p),
    {
        let ghost toks = branch_tokens(path@);
        let mut cur = self.root;
        let mut i: usize = 0;
        let last = path.len() - 1;
        while i < last
            invariant
                self.wf(),
                last == path@.len() - 1,
                toks == branch_tokens(path@),
                i <= last,
                Some(cur) == walk(self.nodes(), self.root, toks.subrange(0, i as int)),
                self.nodes().dom().contains(cur),
            decreases last - i,
        {
            assert(toks.subrange(0, i + 1 as int).drop_last() =~= toks.subrange(0, i as int));
            match self.get_node_id_of(cur, path[i].action.action) {
                Some(c) => {
                    cur = c;
                },
                None => {
                    proof {
                        lemma_walk_none(self.nodes(), self.root, toks, i as int + 1);
                    }
                    return None;
                },
            }
            i = i + 1;
        }
        assert(toks.subrange(0, last as int) =~= toks);
        Some(cur)
    }

    /// Whether a leaf child of `p` has the token and owning rule of `leaf`.
    fn has_leaf(&self, p: NodeId, leaf: &NodeState) -> (r: bool)
        requires
            self.wf(),
            self.nodes().dom().contains(p),
        ensures
            r == has_same_leaf(self.nodes(), p, *leaf),
    {
        let ghost n = self.nodes();
        let cs = arena_children(p, &self.arena);
        let mut i: usize = 0;
        while i < cs.len()
            invariant
                self.wf(),
                n == self.nodes(),
                n.dom().contains(p),
                cs@ == n[p].1,
                i <= cs@.len(),
                forall|j: int|
                    0 <= j < i ==> !(n[#[trigger] n[p].1[j]].0.func is Some && same_leaf(
                        n[n[p].1[j]].0,
                        *leaf,
                    )),
            decreases cs@.len() - i,
        {
            assert(n.dom().contains(n[p].1[i as int]));
            let d = arena_data(&self.arena, cs[i]);
            if d.func.is_some() && d.same_leaf_as(leaf) {
                assert(n[n[p].1[i as int]].0.func is Some);
                return true;
            }
            i = i + 1;
        }
        false
    }

    /// Appends a new node holding `data` under the live node `parent`.
    fn append_child(&mut self, parent: NodeId, data: NodeState) -> (c: NodeId)
        requires
            old(self).wf(),
            old(self).nodes().dom().contains(parent),
            old(self).nodes()[parent].0.func is None,
            data.func is Some || forall|x: NodeId|
                old(self).nodes()[parent].1.contains(x) && old(self).nodes()[x].0.func is None ==> token_of(old(self).nodes(), x)
                    != data.action.action,
        ensures
            final(self).wf(),
            final(self).root == old(self).root,
            final(self).path@ == old(self).path@,
            final(self).previous_interactions@ == old(self).previous_interactions@,
            grows(old(self).nodes(), final(self).nodes()),
            !old(self).nodes().dom().contains(c),
            final(self).nodes().dom().contains(c),
            final(self).nodes()[parent].1.contains(c),
            final(self).nodes()[c].0 == data,
            final(self).nodes() == old(self).nodes().insert(c, (data, Seq::empty())).insert(
                parent,
                (old(self).nodes()[parent].0, old(self).nodes()[parent].1.push(c)),
            ),
    {
        let ghost before = self.nodes();
        let c = arena_append(parent, data, &mut self.arena);
        proof {
            let after = self.nodes();
            assert(grows(before, after)) by {
                assert forall|k: NodeId| #[trigger] before.dom().contains(k) implies {
                    &&& after.dom().contains(k)
                    &&& after[k].0 == before[k].0
                    &&& before[k].1.len() <= after[k].1.len()
                    &&& after[k].1.subrange(0, before[k].1.len() as int) == before[k].1
                } by {
                    if k == parent {
                        assert(after[k].1.subrange(0, before[k].1.len() as int) =~= before[k].1);
                    } else {
                        assert(k != c);
                    }
                }
            }
            assert(after[parent].1.contains(c)) by {
                assert(after[parent].1[after[parent].1.len() - 1] == c);
            }
            assert forall|k: NodeId, j: int| after.dom().contains(k) && 0 <= j < after[k].1.len()
                implies after.dom().contains(#[trigger] after[k].1[j]) by {
                if k == parent {
                    if j < before[k].1.len() {
                        assert(after[k].1[j] == before[k].1[j]);
                    }
                } else if k != c {
                    assert(after[k].1[j] == before[k].1[j]);
                }
            }
            assert forall|k: NodeId, j: int| after.dom().contains(k) && 0 <= j < after[k].1.len()
                implies #[trigger] after[k].1[j] != self.root by {
                if k == parent {
                    if j < before[k].1.len() {
                        assert(after[k].1[j] == before[k].1[j]);
                    }
                } else if k != c {
                    assert(after[k].1[j] == before[k].1[j]);
                }
            }
            assert(!before[parent].1.contains(c)) by {
                if before[parent].1.contains(c) {
                    let i = choose|i: int| 0 <= i < before[parent].1.len() && before[parent].1[i] == c;
                    assert(before.dom().contains(before[parent].1[i]));
                }
            }
            assert forall|k: NodeId| #[trigger] after.dom().contains(k) implies after[k].1.no_duplicates() && forall|x: NodeId, y: NodeId|
                #![trigger after[k].1.contains(x), after[k].1.contains(y)]
                after[k].1.contains(x) && after[k].1.contains(y) && after[x].0.func is None && after[y].0.func is None
                    && token_of(after, x) == token_of(after, y) ==> x == y by {
                if k == c {
                    assert(after[k].1.len() == 0);
                } else {
                    assert(before.dom().contains(k));
                    assert forall|x: NodeId| #[trigger] before[k].1.contains(x) implies x != c && before.dom().contains(x) by {
                        let i = choose|i: int| 0 <= i < before[k].1.len() && before[k].1[i] == x;
                        assert(before.dom().contains(before[k].1[i]));
                    }
                    if k != parent {
                        assert(after[k] == before[k]);
                        assert forall|x: NodeId, y: NodeId|
                            #![trigger after[k].1.contains(x), after[k].1.contains(y)]
                            after[k].1.contains(x) && after[k].1.contains(y) && after[x].0.func is None && after[y].0.func is None
                                && token_of(after, x) == token_of(after, y) implies x == y by {
                            assert(after[x].0 == before[x].0);
                            assert(after[y].0 == before[y].0);
                        }
                    }
                    if k == parent {
                        let cs = before[k].1;
                        assert(after[k].1 == cs.push(c));
                        assert forall|x: NodeId, y: NodeId|
                            #![trigger after[k].1.contains(x), after[k].1.contains(y)]
                            after[k].1.contains(x) && after[k].1.contains(y) && after[x].0.func is None && after[y].0.func is None
                                && token_of(after, x) == token_of(after, y) implies x == y by {
                            assert(after[c] == (data, Seq::<NodeId>::empty()));
                            let ix = choose|ix: int| 0 <= ix < cs.push(c).len() && cs.push(c)[ix] == x;
                            let iy = choose|iy: int| 0 <= iy < cs.push(c).len() && cs.push(c)[iy] == y;
                            if ix < cs.len() {
                                assert(cs.contains(x));
                                assert(after[x].0 == before[x].0);
                            } else {
                                assert(x == c);
                            }
                            if iy < cs.len() {
                                assert(cs.contains(y));
                                assert(after[y].0 == before[y].0);
                            } else {
                                assert(y == c);
                            }
                            if x != c && y != c {
                                assert(siblings_ok(before));
                                assert(before.dom().contains(k));
                                assert(before[x].0.func is None && before[y].0.func is None);
                                assert(token_of(before, x) == token_of(before, y));
                                assert(before[k].1.contains(x) && before[k].1.contains(y));
                            }
                            if x == c && y != c {
                                assert(before[parent].1.contains(y));
                            }
                            if y == c && x != c {
                                assert(before[parent].1.contains(x));
                            }
                        }
                        assert forall|a2: int, b2: int| 0 <= a2 < cs.push(c).len() && 0 <= b2 < cs.push(c).len() && a2 != b2
                            implies cs.push(c)[a2] != cs.push(c)[b2] by {
                            if a2 == cs.len() {
                                assert(cs.contains(cs[b2]));
                            } else if b2 == cs.len() {
                                assert(cs.contains(cs[a2]));
                            }
                        }
                        assert forall|x: NodeId| #[trigger] cs.push(c).contains(x) implies x == c || cs.contains(x) by {
                            let i = choose|i: int| 0 <= i < cs.push(c).len() && cs.push(c)[i] == x;
                            if i < cs.len() {
                                assert(cs[i] == x);
                            }
                        }
                    }
                }
            }
            lemma_grows_chain(before, after, self.root, self.path@);
        }
        c
    }

    /// Adds an action path. Branches are shared with existing paths by
    /// token; the leaf is appended under the last branch. Fails, changing
    /// nothing, if a leaf with the same token and owning rule is already there.
    #[verifier::rlimit(100)]
    fn insert_iter(&mut self, path: &Vec<NodeState>) -> (r: Result<(), Error>)
        requires
            old(self).wf(),
            action_path(path@),
        ensures
            final(self).wf(),
            final(self).root_id() == old(self).root_id(),
            final(self).cursor_path() == old(self).cursor_path(),
            final(self).previous() == old(self).previous(),
            grows(old(self).nodes(), final(self).nodes()),
            duplicate_leaf(old(self).nodes(), old(self).root_id(), path@) ==> (r matches Err(
                Error::DuplicateLeaf,
            ) && final(self).nodes() == old(self).nodes()),
            !duplicate_leaf(old(self).nodes(), old(self).root_id(), path@) ==> (r is Ok && spelled(final(self).nodes(), final(self).root_id(), path@)
                && exists|ids: Seq<NodeId>, k: int| inserted(old(self).nodes(), final(self).nodes(), old(self).root_id(), path@, ids, k)),
    {
        proof {
            lemma_grows_refl(self.nodes());
        }
        match self.walk_branches(path) {
            Some(p) => {
                let last = path.len() - 1;
                if self.has_leaf(p, &path[last]) {
                    return Err(Error::DuplicateLeaf);
                }
            },
            None => {},
        }
        let ghost n0 = self.nodes();
        let ghost toks = branch_tokens(path@);
        let ghost mut ids: Seq<NodeId> = Seq::empty();
        let mut parent = self.root;
        let mut i: usize = 0;
        let last = path.len() - 1;
        let mut missing = false;
        while i < last && !missing
            invariant
                self.wf(),
                self.nodes() == n0,
                n0 == old(self).nodes(),
                self.root == old(self).root,
                self.path@ == old(self).path@,
                self.previous_interactions@ == old(self).previous_interactions@,
                last == path@.len() - 1,
                toks == branch_tokens(path@),
                action_path(path@),
                i <= last,
                ids.len() == i,
                parent == above(self.root, ids, i as int),
                n0.dom().contains(parent),
                n0[parent].0.func is None,
                Some(parent) == walk(n0, self.root, toks.subrange(0, i as int)),
                missing ==> i < last && walk(n0, self.root, toks.subrange(0, i + 1)) is None,
                forall|j: int| 0 <= j < i ==> Some(#[trigger] ids[j]) == walk(n0, self.root, toks.subrange(0, j + 1)),
                forall|j: int|
                    0 <= j < ids.len() ==> {
                        &&& n0.dom().contains(#[trigger] ids[j])
                        &&& n0[above(self.root, ids, j)].1.contains(ids[j])
                        &&& token_of(n0, ids[j]) == path@[j].action.action
                        &&& n0[ids[j]].0.func is None
                    },
            decreases last - i, if missing { 0int } else { 1int },
        {
            assert(toks.subrange(0, i + 1 as int).drop_last() =~= toks.subrange(0, i as int));
            assert(toks[i as int] == path@[i as int].action.action);
            match self.get_node_id_of(parent, path[i].action.action) {
                Some(c) => {
                    proof {
                        let ids2 = ids.push(c);
                        assert forall|j: int| 0 <= j < ids2.len() implies {
                            &&& n0.dom().contains(#[trigger] ids2[j])
                            &&& n0[above(self.root, ids2, j)].1.contains(ids2[j])
                            &&& token_of(n0, ids2[j]) == path@[j].action.action
                            &&& n0[ids2[j]].0.func is None
                        } by {
                            if j < ids.len() {
                                assert(ids2[j] == ids[j]);
                                assert(above(self.root, ids2, j) == above(self.root, ids, j));
                            }
                        }
                        assert forall|j: int| 0 <= j < i + 1 implies Some(#[trigger] ids2[j]) == walk(n0, self.root, toks.subrange(0, j + 1)) by {
                            if j < i {
                                assert(ids2[j] == ids[j]);
                            }
                        }
                        ids = ids2;
                    }
                    parent = c;
                    i = i + 1;
                },
                None => {
                    missing = true;
                },
            }
        }
        let ghost k: int = i as int;
        let ghost old_parent = parent;
        while i < last
            invariant
                self.wf(),
                self.root == old(self).root,
                self.path@ == old(self).path@,
                self.previous_interactions@ == old(self).previous_interactions@,
                n0 == old(self).nodes(),
                last == path@.len() - 1,
                toks == branch_tokens(path@),
                action_path(path@),
                0 <= k <= i <= last,
                k < last ==> walk(n0, self.root, toks.subrange(0, k + 1)) is None,
                ids.len() == i,
                old_parent == above(self.root, ids, k),
                n0.dom().contains(old_parent),
                Some(old_parent) == walk(n0, self.root, toks.subrange(0, k)),
                children_live(n0),
                parent == above(self.root, ids, i as int),
                self.nodes().dom().contains(parent),
                self.nodes()[parent].0.func is None,
                i > k ==> self.nodes()[parent].1.len() == 0,
                forall|j: int| 0 <= j < k ==> Some(#[trigger] ids[j]) == walk(n0, self.root, toks.subrange(0, j + 1)),
                forall|j: int| k <= j < ids.len() ==> !n0.dom().contains(#[trigger] ids[j]),
                forall|q: NodeId| #[trigger] self.nodes().dom().contains(q) <==> n0.dom().contains(q) || in_suffix(ids, k, q),
                forall|q: NodeId|
                    #[trigger] n0.dom().contains(q) ==> self.nodes()[q] == if i > k && q == old_parent {
                        (n0[q].0, n0[q].1.push(ids[k]))
                    } else {
                        n0[q]
                    },
                forall|j: int|
                    k <= j < i ==> #[trigger] self.nodes()[ids[j]] == (branch_data(path@[j]), if j < i - 1 {
                        seq![ids[j + 1]]
                    } else {
                        Seq::<NodeId>::empty()
                    }),
                forall|j: int| 0 <= j < k ==> n0.dom().contains(#[trigger] ids[j]),
            decreases last - i,
        {
            let ghost before = self.nodes();
            let data = NodeState::new(path[i].action.clone(), None, None);
            assert(data == branch_data(path@[i as int]));
            proof {
                if i == k {
                    let t = toks.subrange(0, k + 1);
                    assert(t.drop_last() =~= toks.subrange(0, k));
                    assert(t.last() == path@[k].action.action);
                    assert(parent == old_parent);
                    assert(walk(n0, self.root, toks.subrange(0, k)) == Some(old_parent));
                    lemma_find_branch_none(n0, n0[old_parent].1, path@[k].action.action);
                    assert(self.nodes()[parent] == n0[parent]);
                    assert forall|x: NodeId| self.nodes()[parent].1.contains(x) && self.nodes()[x].0.func is None
                        implies token_of(self.nodes(), x) != data.action.action by {
                        let ix = choose|ix: int| 0 <= ix < n0[parent].1.len() && n0[parent].1[ix] == x;
                        assert(n0.dom().contains(n0[parent].1[ix]));
                        assert(self.nodes()[x] == n0[x]);
                    }
                }
            }
            let c = self.append_child(parent, data);
            proof {
                let after = self.nodes();
                let ids2 = ids.push(c);
                assert(!n0.dom().contains(c));
                assert(!in_suffix(ids, k, c)) by {
                    if in_suffix(ids, k, c) {
                        let j = choose|j: int| k <= j < ids.len() && ids[j] == c;
                        assert(before.dom().contains(ids[j]));
                    }
                }
                assert forall|j: int| 0 <= j < ids2.len() implies above(self.root, ids2, j) == above(self.root, ids, j) || j == ids.len() by {}
                assert forall|q: NodeId| #[trigger] after.dom().contains(q) <==> n0.dom().contains(q) || in_suffix(ids2, k, q) by {
                    if in_suffix(ids, k, q) {
                        let j = choose|j: int| k <= j < ids.len() && ids[j] == q;
                        assert(ids2[j] == q);
                    }
                    if in_suffix(ids2, k, q) && q != c {
                        let j = choose|j: int| k <= j < ids2.len() && ids2[j] == q;
                        assert(j < ids.len());
                        assert(ids[j] == q);
                    }
                    if q == c {
                        assert(ids2[ids.len() as int] == c);
                    }
                }
                assert forall|q: NodeId| #[trigger] n0.dom().contains(q) implies after[q] == if i + 1 > k && q == old_parent {
                    (n0[q].0, n0[q].1.push(ids2[k]))
                } else {
                    n0[q]
                } by {
                    if i == k {
                        assert(parent == old_parent);
                    } else {
                        assert(parent == ids[i - 1]);
                        assert(parent != q);
                    }
                    if k < ids.len() {
                        assert(ids2[k] == ids[k]);
                    }
                }
                assert forall|j: int| k <= j < i + 1 implies #[trigger] after[ids2[j]] == (branch_data(path@[j]), if j < i {
                    seq![ids2[j + 1]]
                } else {
                    Seq::<NodeId>::empty()
                }) by {
                    if j < i {
                        assert(ids2[j] == ids[j]);
                        assert(ids[j] != c);
                        if j == i - 1 {
                            assert(parent == ids[j]);
                            assert(before[ids[j]].1 == Seq::<NodeId>::empty());
                            assert(Seq::<NodeId>::empty().push(c) =~= seq![c]);
                            assert(ids2[j + 1] == c);
                        } else {
                            assert(ids[j] != parent);
                            assert(ids2[j + 1] == ids[j + 1]);
                        }
                    } else {
                        assert(ids2[j] == c);
                        assert(c != parent);
                    }
                }
                assert forall|j: int| k <= j < ids2.len() implies !n0.dom().contains(#[trigger] ids2[j]) by {
                    if j < ids.len() {
                        assert(ids2[j] == ids[j]);
                    }
                }
                assert forall|j: int| 0 <= j < k implies Some(#[trigger] ids2[j]) == walk(n0, self.root, toks.subrange(0, j + 1)) by {
                    assert(ids2[j] == ids[j]);
                }
                assert forall|j: int| 0 <= j < k implies n0.dom().contains(#[trigger] ids2[j]) by {
                    assert(ids2[j] == ids[j]);
                }
                assert(above(self.root, ids2, k) == above(self.root, ids, k)) by {
                    if k > 0 {
                        assert(ids2[k - 1] == ids[k - 1]);
                    }
                }
                ids = ids2;
            }
            parent = c;
            i = i + 1;
        }
        let ghost before = self.nodes();
        let leaf = path[last].clone();
        let c = self.append_child(parent, leaf);
        proof {
            let after = self.nodes();
            let all = ids.push(c);
            assert(!in_suffix(ids, k, c)) by {
                if in_suffix(ids, k, c) {
                    let j = choose|j: int| k <= j < ids.len() && ids[j] == c;
                    assert(before.dom().contains(ids[j]));
                }
            }
            assert(above(self.root, all, k) == old_parent) by {
                if k > 0 {
                    assert(all[k - 1] == ids[k - 1]);
                }
            }
            assert forall|q: NodeId| #[trigger] after.dom().contains(q) <==> n0.dom().contains(q) || in_suffix(all, k, q) by {
                if in_suffix(ids, k, q) {
                    let j = choose|j: int| k <= j < ids.len() && ids[j] == q;
                    assert(all[j] == q);
                }
                if in_suffix(all, k, q) && q != c {
                    let j = choose|j: int| k <= j < all.len() && all[j] == q;
                    assert(ids[j] == q);
                }
                if q == c {
                    assert(all[ids.len() as int] == c);
                }
            }
            assert forall|q: NodeId| #[trigger] n0.dom().contains(q) implies after[q] == if q == above(self.root, all, k) {
                (n0[q].0, n0[q].1.push(all[k]))
            } else {
                n0[q]
            } by {
                if last == k {
                    assert(parent == old_parent);
                    assert(all[k] == c);
                } else {
                    assert(parent == ids[last - 1]);
                    assert(all[k] == ids[k]);
                }
            }
            assert forall|j: int| k <= j < last implies #[trigger] after[all[j]] == (branch_data(path@[j]), seq![all[j + 1]]) by {
                assert(all[j] == ids[j]);
                assert(ids[j] != c);
                if j == last - 1 {
                    assert(parent == ids[j]);
                    assert(Seq::<NodeId>::empty().push(c) =~= seq![c]);
                } else {
                    assert(ids[j] != parent);
                    assert(all[j + 1] == ids[j + 1]);
                }
            }
            assert forall|j: int| k <= j < all.len() implies !n0.dom().contains(#[trigger] all[j]) by {
                if j < ids.len() {
                    assert(all[j] == ids[j]);
                }
            }
            assert forall|j: int| 0 <= j < k implies Some(#[trigger] all[j]) == walk(n0, self.root, toks.subrange(0, j + 1)) by {
                assert(all[j] == ids[j]);
            }
            assert(all[last as int] == c);
            assert(inserted(n0, after, self.root, path@, all, k));
            lemma_inserted_grows_spells(n0, after, self.root, path@, all, k);
        }
        Ok(())
    }

    /// Whether every path of `paths` is an action path.
    fn all_action_paths(paths: &Vec<Vec<NodeState>>) -> (r: bool)
        ensures
            r == forall|i: int| 0 <= i < paths@.len() ==> action_path(#[trigger] paths@[i]@),
    {
        let mut i: usize = 0;
        while i < paths.len()
            invariant
                i <= paths@.len(),
                forall|j: int| 0 <= j < i ==> action_path(#[trigger] paths@[j]@),
            decreases paths@.len() - i,
        {
            let p = &paths[i];
            assert(p@ == paths@[i as int]@);
            if p.len() == 0 {
                assert(!action_path(paths@[i as int]@));
                return false;
            }
            let last = p.len() - 1;
            if p[last].func.is_none() {
                assert(!action_path(paths@[i as int]@));
                return false;
            }
            let mut j: usize = 0;
            while j < last
                invariant
                    p@ == paths@[i as int]@,
                    0 <= i < paths@.len(),
                    last == p@.len() - 1,
                    j <= last,
                    forall|k: int| 0 <= k < j ==> (#[trigger] p@[k]).func is None,
                decreases last - j,
            {
                if p[j].func.is_some() {
                    assert(!action_path(paths@[i as int]@));
                    return false;
                }
                j = j + 1;
            }
            i = i + 1;
        }
        true
    }

    /// Adds every path of `paths`, in order. Fails with `InvalidActionPath`,
    /// changing nothing, if one of them is not an action path (non-empty, a
    /// handler on its last step and on no other); fails with `DuplicateLeaf`
    /// at the first path whose leaf is already present. On success every
    /// path is spelled from the root by a chain of nodes.
    #[verifier::rlimit(60)]
    pub fn extend(&mut self, paths: &Vec<Vec<NodeState>>) -> (r: Result<(), Error>)
        requires
            old(self).wf(),
        ensures
            final(self).wf(),
            final(self).root_id() == old(self).root_id(),
            final(self).cursor_path() == old(self).cursor_path(),
            grows(old(self).nodes(), final(self).nodes()),
            (exists|i: int| 0 <= i < paths@.len() && !action_path(#[trigger] paths@[i]@)) <==> (r matches Err(
                Error::InvalidActionPath,
            )),
            (r matches Err(Error::InvalidActionPath)) ==> final(self).nodes() == old(self).nodes(),
            r is Ok || r matches Err(Error::InvalidActionPath) || r matches Err(Error::DuplicateLeaf),
            r is Ok ==> forall|i: int|
                0 <= i < paths@.len() ==> spelled(final(self).nodes(), final(self).root_id(), #[trigger] paths@[i]@),
            (r matches Err(Error::DuplicateLeaf)) ==> duplicate_at(final(self).nodes(), final(self).root_id(), paths@),
            r is Ok ==> exists|ts: Seq<NodeModel>|
                added_in_turn(ts, old(self).root_id(), paths@) && ts[0] == old(self).nodes() && ts.last() == final(self).nodes(),
            (r matches Err(Error::DuplicateLeaf)) ==> exists|ts: Seq<NodeModel>, k: int|
                0 <= k < paths@.len() && added_in_turn(ts, old(self).root_id(), paths@.subrange(0, k)) && ts[0] == old(self).nodes()
                    && ts.last() == final(self).nodes() && duplicate_leaf(final(self).nodes(), old(self).root_id(), paths@[k]@),
    {
        proof {
            lemma_grows_refl(self.nodes());
        }
        if !Self::all_action_paths(paths) {
            return Err(Error::InvalidActionPath);
        }
        let ghost n0 = self.nodes();
        let ghost mut ts: Seq<NodeModel> = seq![n0];
        let mut i: usize = 0;
        while i < paths.len()
            invariant
                self.wf(),
                self.root == old(self).root,
                self.path@ == old(self).path@,
                n0 == old(self).nodes(),
                grows(n0, self.nodes()),
                i <= paths@.len(),
                forall|j: int| 0 <= j < paths@.len() ==> action_path(#[trigger] paths@[j]@),
                forall|j: int| 0 <= j < i ==> spelled(self.nodes(), self.root, #[trigger] paths@[j]@),
                added_in_turn(ts, self.root, paths@.subrange(0, i as int)),
                ts[0] == n0,
                ts.last() == self.nodes(),
            decreases paths@.len() - i,
        {
            let ghost before = self.nodes();
            let res = self.insert_iter(&paths[i]);
            if res.is_err() {
                proof {
                    assert(exists|ts2: Seq<NodeModel>, k: int|
                        0 <= k < paths@.len() && added_in_turn(ts2, self.root, paths@.subrange(0, k)) && ts2[0] == n0
                            && ts2.last() == self.nodes() && duplicate_leaf(self.nodes(), self.root, paths@[k]@)) by {
                        assert(self.nodes() == before);
                        assert(duplicate_leaf(before, self.root, paths@[i as int]@));
                        assert(0 <= i < paths@.len() && added_in_turn(ts, self.root, paths@.subrange(0, i as int)) && ts[0] == n0
                            && ts.last() == self.nodes() && duplicate_leaf(self.nodes(), self.root, paths@[i as int]@));
                    }
                    assert(self.root == old(self).root_id() && n0 == old(self).nodes());
                    assert(exists|ts2: Seq<NodeModel>, k: int|
                        0 <= k < paths@.len() && added_in_turn(ts2, old(self).root_id(), paths@.subrange(0, k)) && ts2[0] == old(self).nodes()
                            && ts2.last() == self.nodes() && duplicate_leaf(self.nodes(), old(self).root_id(), paths@[k]@));
                    lemma_grows_trans(n0, before, self.nodes());
                    assert(duplicate_leaf(self.nodes(), self.root, paths@[i as int]@));
                    assert(duplicate_at(self.nodes(), self.root, paths@)) by {
                        assert(0 <= i < paths@.len() && duplicate_leaf(self.nodes(), self.root, paths@[i as int]@)
                            && forall|j: int| 0 <= j < i ==> spelled(self.nodes(), self.root, #[trigger] paths@[j]@));
                    }
                }
                return Err(Error::DuplicateLeaf);
            }
            proof {
                lemma_grows_trans(n0, before, self.nodes());
                assert forall|j: int| 0 <= j < i + 1 implies spelled(self.nodes(), self.root, #[trigger] paths@[j]@) by {
                    if j < i {
                        assert(spelled(before, self.root, paths@[j]@));
                        let ids = choose|ids: Seq<NodeId>| spells(before, self.root, ids, paths@[j]@);
                        lemma_grows_spells(before, self.nodes(), self.root, ids, paths@[j]@);
                    }
                }
                let ts2 = ts.push(self.nodes());
                let ps2 = paths@.subrange(0, i + 1 as int);
                assert forall|q: int| 0 <= q < ps2.len() implies #[trigger] path_added(ts2[q], ts2[q + 1], self.root, ps2[q]@) by {
                    assert(ps2[q] == paths@[q]);
                    if q < i {
                        assert(ts2[q] == ts[q] && ts2[q + 1] == ts[q + 1]);
                        assert(paths@.subrange(0, i as int)[q] == paths@[q]);
                    } else {
                        assert(ts2[q] == before && ts2[q + 1] == self.nodes());
                    }
                }
                ts = ts2;
            }
            i = i + 1;
        }
        assert(paths@.subrange(0, paths@.len() as int) =~= paths@);
        Ok(())
    }

    /// An automaton holding the given action paths.
    pub fn from_iter(paths: &Vec<Vec<NodeState>>) -> (r: Result<Automaton, Error>)
        ensures
            (exists|i: int| 0 <= i < paths@.len() && !action_path(#[trigger] paths@[i]@)) <==> (r matches Err(
                Error::InvalidActionPath,
            )),
            r is Ok || r matches Err(Error::InvalidActionPath) || r matches Err(Error::DuplicateLeaf),
            r matches Ok(a) ==> a.wf() && a.cursor_path().len() == 0 && forall|i: int|
                0 <= i < paths@.len() ==> spelled(a.nodes(), a.root_id(), #[trigger] paths@[i]@),
            r matches Ok(a) ==> exists|ts: Seq<NodeModel>|
                added_in_turn(ts, a.root_id(), paths@) && ts[0].dom() == set![a.root_id()] && ts[0][a.root_id()].1.len() == 0
                    && ts.last() == a.nodes(),
            (r matches Err(Error::DuplicateLeaf)) ==> exists|ts: Seq<NodeModel>, k: int, root: NodeId|
                0 <= k < paths@.len() && added_in_turn(ts, root, paths@.subrange(0, k)) && ts[0].dom() == set![root]
                    && ts[0][root].1.len() == 0 && duplicate_leaf(ts.last(), root, paths@[k]@),
    {
        let mut a = Automaton::new();
        match a.extend(paths) {
            Ok(()) => Ok(a),
            Err(e) => {

                Err(e)
            },
        }
    }

    /// The first leaf child of `p` with the token and owning rule of `leaf`.
    fn find_leaf(&self, p: NodeId, leaf: &NodeState) -> (r: Option<NodeId>)
        requires
            self.wf(),
            self.nodes().dom().contains(p),
        ensures
            r is None ==> !has_same_leaf(self.nodes(), p, *leaf),
            r matches Some(c) ==> self.nodes()[p].1.contains(c) && self.nodes()[c].0.func is Some
                && same_leaf(self.nodes()[c].0, *leaf),
    {
        let ghost n = self.nodes();
        let cs = arena_children(p, &self.arena);
        let mut i: usize = 0;
        while i < cs.len()
            invariant
                self.wf(),
                n == self.nodes(),
                n.dom().contains(p),
                cs@ == n[p].1,
                i <= cs@.len(),
                forall|j: int|
                    0 <= j < i ==> !(n[#[trigger] n[p].1[j]].0.func is Some && same_leaf(
                        n[n[p].1[j]].0,
                        *leaf,
                    )),
            decreases cs@.len() - i,
        {
            assert(n.dom().contains(n[p].1[i as int]));
            let c = cs[i];
            let d = arena_data(&self.arena, c);
            if d.func.is_some() && d.same_leaf_as(leaf) {
                assert(cs@.contains(c));
                return Some(c);
            }
            i = i + 1;
        }
        None
    }

    /// Takes out the childless live node `id`.
    fn remove_leaf_node(&mut self, id: NodeId)
        requires
            old(self).wf(),
            old(self).nodes().dom().contains(id),
            old(self).nodes()[id].1.len() == 0,
            id != old(self).root,
        ensures
            final(self).wf(),
            final(self).root == old(self).root,
            final(self).path@.len() == 0,
            final(self).previous_interactions@ == old(self).previous_interactions@,
            final(self).nodes() == without_leaf(old(self).nodes(), id),
    {
        let ghost a = self.nodes();
        self.path = Vec::new();
        arena_remove(id, &mut self.arena);
        proof {
            broadcast use vstd::seq_lib::group_filter_ensures;
            let b = self.nodes();
            assert forall|k: NodeId, i: int| b.dom().contains(k) && 0 <= i < b[k].1.len()
                implies b.dom().contains(#[trigger] b[k].1[i]) && b[k].1[i] != self.root by {
                let pred = not_id(id);
                let x = b[k].1[i];
                assert(a[k].1.filter(pred).contains(x));
                a[k].1.lemma_filter_contains_rev(pred, x);
                let j = choose|j: int| 0 <= j < a[k].1.len() && a[k].1[j] == x;
                assert(a.dom().contains(a[k].1[j]));
                assert(pred(a[k].1.filter(pred)[i]));
            }
            assert forall|k: NodeId| #[trigger] b.dom().contains(k) implies b[k].1.no_duplicates() && forall|x: NodeId, y: NodeId|
                #![trigger b[k].1.contains(x), b[k].1.contains(y)]
                b[k].1.contains(x) && b[k].1.contains(y) && b[x].0.func is None && b[y].0.func is None && token_of(b, x)
                    == token_of(b, y) ==> x == y by {
                lemma_filter_no_dup(a[k].1, not_id(id));
                assert forall|x: NodeId, y: NodeId|
                    #![trigger b[k].1.contains(x), b[k].1.contains(y)]
                    b[k].1.contains(x) && b[k].1.contains(y) && b[x].0.func is None && b[y].0.func is None && token_of(b, x)
                        == token_of(b, y) implies x == y by {
                    a[k].1.lemma_filter_contains_rev(not_id(id), x);
                    a[k].1.lemma_filter_contains_rev(not_id(id), y);
                    let ix = choose|ix: int| 0 <= ix < b[k].1.len() && b[k].1[ix] == x;
                    let iy = choose|iy: int| 0 <= iy < b[k].1.len() && b[k].1[iy] == y;
                    assert(b.dom().contains(b[k].1[ix]));
                    assert(b.dom().contains(b[k].1[iy]));
                    assert(a[k].1.contains(x) && a[k].1.contains(y));
                }
            }
        }
    }

    /// Takes out the leaf that `path` resolves to from the root, then each
    /// node of its chain, upwards, left without children. Nothing is taken
    /// out if the path does not resolve. The cursor goes back to the root.
    fn remove_path(&mut self, path: &Vec<NodeState>)
        requires
            old(self).wf(),
            action_path(path@),
        ensures
            final(self).wf(),
            final(self).root == old(self).root,
            final(self).path@.len() == 0,
            final(self).previous_interactions@ == old(self).previous_interactions@,
            shrinks(old(self).nodes(), final(self).nodes()),
            path_removed(old(self).nodes(), final(self).nodes(), old(self).root, path@),
    {
        self.path = Vec::new();
        let ghost n0 = self.nodes();
        let ghost toks = branch_tokens(path@);
        let mut ids: Vec<NodeId> = Vec::new();
        let mut cur = self.root;
        let mut i: usize = 0;
        let last = path.len() - 1;
        while i < last
            invariant
                self.wf(),
                self.nodes() == n0,
                n0 == old(self).nodes(),
                self.path@.len() == 0,
                self.root == old(self).root,
                self.previous_interactions@ == old(self).previous_interactions@,
                last == path@.len() - 1,
                toks == branch_tokens(path@),
                i <= last,
                ids@.len() == i,
                Some(cur) == walk(n0, self.root, toks.subrange(0, i as int)),
                cur == above(self.root, ids@, i as int),
                n0.dom().contains(cur),
                forall|j: int| 0 <= j < ids@.len() ==> n0.dom().contains(#[trigger] ids@[j]) && ids@[j] != self.root,
                forall|j: int| 0 <= j < ids@.len() ==> Some(#[trigger] ids@[j]) == walk(n0, self.root, toks.subrange(0, j + 1)),
            decreases last - i,
        {
            assert(toks.subrange(0, i + 1 as int).drop_last() =~= toks.subrange(0, i as int));
            match self.get_node_id_of(cur, path[i].action.action) {
                Some(c) => {
                    cur = c;
                    ids.push(c);
                },
                None => {
                    proof {
                        lemma_walk_none(n0, self.root, toks, i as int + 1);
                        lemma_grows_refl(n0);
                    }
                    return;
                },
            }
            i = i + 1;
        }
        assert(toks.subrange(0, last as int) =~= toks);
        let lid = match self.find_leaf(cur, &path[last]) {
            Some(c) => c,
            None => {
                return;
            },
        };
        ids.push(lid);
        proof {
            assert(n0.dom().contains(lid));
            assert(resolves(n0, self.root, path@, ids@)) by {
                assert forall|j: int| 0 <= j < ids@.len() - 1 implies Some(#[trigger] ids@[j]) == walk(
                    n0,
                    self.root,
                    toks.subrange(0, j + 1),
                ) by {
                    assert(ids@[j] == ids@.drop_last()[j]);
                }
                assert(above(self.root, ids@, ids@.len() - 1) == cur);
            }
        }
        let mut k: usize = ids.len();
        let mut m: usize = 0;
        let mut stopped = false;
        while k > 0 && !stopped
            invariant
                self.wf(),
                self.root == old(self).root,
                self.previous_interactions@ == old(self).previous_interactions@,
                self.path@.len() == 0,
                n0 == old(self).nodes(),
                k <= ids@.len(),
                ids@.len() == path@.len(),
                ids@.last() == lid,
                n0.dom().contains(lid) && n0[lid].0.func is Some,
                forall|j: int| 0 <= j < ids@.len() ==> n0.dom().contains(#[trigger] ids@[j]) && ids@[j] != self.root,
                forall|q: NodeId| #[trigger] self.nodes().dom().contains(q) <==> n0.dom().contains(q) && !in_suffix(ids@, k as int, q),
                forall|q: NodeId|
                    #[trigger] self.nodes().dom().contains(q) ==> self.nodes()[q].0 == n0[q].0 && forall|x: NodeId|
                        #[trigger] self.nodes()[q].1.contains(x) <==> n0[q].1.contains(x) && self.nodes().dom().contains(x),
                forall|j: int, x: NodeId| k <= j < ids@.len() && #[trigger] n0[ids@[j]].1.contains(x) ==> !self.nodes().dom().contains(x),
                stopped ==> m == k && 0 < m < ids@.len() && self.nodes().dom().contains(ids@[m - 1]) && self.nodes()[ids@[m - 1]].1.len() > 0,
            decreases k + if stopped { 0int } else { 1int },
        {
            let idx = k - 1;
            let id = ids[idx];
            let ghost before = self.nodes();
            if arena_is_live(id, &self.arena) {
                let cs = arena_children(id, &self.arena);
                if cs.len() == 0 {
                    self.remove_leaf_node(id);
                    k = idx;
                    proof {
                        broadcast use vstd::seq_lib::group_filter_ensures;
                        let after = self.nodes();
                        assert forall|q: NodeId| #[trigger] after.dom().contains(q) <==> n0.dom().contains(q) && !in_suffix(ids@, idx as int, q) by {
                            if in_suffix(ids@, idx as int, q) && q != id {
                                let j = choose|j: int| idx <= j < ids@.len() && ids@[j] == q;
                                assert(j != idx);
                                assert(in_suffix(ids@, idx + 1, q));
                            }
                            if in_suffix(ids@, idx + 1, q) {
                                let j = choose|j: int| idx + 1 <= j < ids@.len() && ids@[j] == q;
                                assert(in_suffix(ids@, idx as int, q));
                            }
                            assert(in_suffix(ids@, idx as int, id)) by {
                                assert(ids@[idx as int] == id);
                            }
                        }
                        assert forall|q: NodeId| #[trigger] after.dom().contains(q) implies after[q].0 == n0[q].0 && forall|x: NodeId|
                            #[trigger] after[q].1.contains(x) <==> n0[q].1.contains(x) && after.dom().contains(x) by {
                            assert(before.dom().contains(q));
                            assert forall|x: NodeId| #[trigger] after[q].1.contains(x) <==> n0[q].1.contains(x) && after.dom().contains(x) by {
                                if after[q].1.contains(x) {
                                    before[q].1.lemma_filter_contains_rev(not_id(id), x);
                                    assert(x != id) by {
                                        let i2 = choose|i2: int| 0 <= i2 < after[q].1.len() && after[q].1[i2] == x;
                                        before[q].1.lemma_filter_pred(not_id(id), i2);
                                    }
                                }
                                if n0[q].1.contains(x) && after.dom().contains(x) {
                                    assert(before[q].1.contains(x));
                                    let i2 = choose|i2: int| 0 <= i2 < before[q].1.len() && before[q].1[i2] == x;
                                    before[q].1.lemma_filter_contains(not_id(id), i2);
                                }
                            }
                        }
                        assert forall|j: int, x: NodeId| idx <= j < ids@.len() && #[trigger] n0[ids@[j]].1.contains(x) implies !after.dom().contains(x) by {
                            if j == idx && before.dom().contains(x) {
                                assert(before[id].1.contains(x));
                                assert(before[id].1.len() == 0);
                            }
                        }
                    }
                } else {
                    m = k;
                    stopped = true;
                    proof {
                        if idx == ids@.len() - 1 {
                            assert(id == lid);
                        }
                    }
                }
            } else {
                k = idx;
                proof {
                    assert(in_suffix(ids@, idx + 1, id));
                    let j0 = choose|j: int| idx + 1 <= j < ids@.len() && ids@[j] == id;
                    assert forall|q: NodeId| #[trigger] self.nodes().dom().contains(q) <==> n0.dom().contains(q) && !in_suffix(ids@, idx as int, q) by {
                        if in_suffix(ids@, idx as int, q) && q != id {
                            let j = choose|j: int| idx <= j < ids@.len() && ids@[j] == q;
                            assert(in_suffix(ids@, idx + 1, q));
                        }
                        if in_suffix(ids@, idx + 1, q) {
                            let j = choose|j: int| idx + 1 <= j < ids@.len() && ids@[j] == q;
                            assert(in_suffix(ids@, idx as int, q));
                        }
                        if q == id {
                            assert(ids@[idx as int] == id);
                        }
                    }
                    assert forall|j: int, x: NodeId| idx <= j < ids@.len() && #[trigger] n0[ids@[j]].1.contains(x) implies !self.nodes().dom().contains(x) by {
                        if j == idx {
                            assert(n0[ids@[j0]].1.contains(x));
                        }
                    }
                }
            }
        }
        proof {
            let mm: int = k as int;
            let b = self.nodes();
            assert(pruned(n0, b, ids@, mm));
            assert(duplicate_leaf(n0, self.root, path@)) by {
                assert(walk(n0, self.root, toks) == Some(cur));
                let li = choose|i2: int| 0 <= i2 < n0[cur].1.len() && n0[cur].1[i2] == lid;
                assert(n0[n0[cur].1[li]].0.func is Some);
            }
            assert forall|q: NodeId| #[trigger] b.dom().contains(q) implies {
                &&& n0.dom().contains(q)
                &&& b[q].0 == n0[q].0
                &&& forall|x: NodeId| #[trigger] b[q].1.contains(x) ==> n0[q].1.contains(x)
            } by {}
        }
    }

    /// Takes out every path of `paths`, in order (see the private
    /// `remove_path`): the leaf each one resolves to, and then each branch of
    /// its chain left without children; branches still used by other paths
    /// stay. Fails with `InvalidActionPath`, changing nothing, if one of them
    /// is not an action path. The cursor goes back to the root.
    pub fn remove_paths(&mut self, paths: &Vec<Vec<NodeState>>) -> (r: Result<(), Error>)
        requires
            old(self).wf(),
        ensures
            final(self).wf(),
            final(self).root_id() == old(self).root_id(),
            (exists|i: int| 0 <= i < paths@.len() && !action_path(#[trigger] paths@[i]@)) <==> (r matches Err(
                Error::InvalidActionPath,
            )),
            r is Ok || r matches Err(Error::InvalidActionPath),
            (r matches Err(Error::InvalidActionPath)) ==> final(self).nodes() == old(self).nodes()
                && final(self).cursor_path() == old(self).cursor_path(),
            r is Ok ==> final(self).cursor_path().len() == 0,
            r is Ok ==> exists|ts: Seq<NodeModel>|
                ts.len() == paths@.len() + 1 && ts[0] == old(self).nodes() && ts.last() == final(self).nodes()
                    && forall|q: int| 0 <= q < paths@.len() ==> #[trigger] path_removed(ts[q], ts[q + 1], old(self).root_id(), paths@[q]@),
            shrinks(old(self).nodes(), final(self).nodes()),
    {
        if !Self::all_action_paths(paths) {
            return Err(Error::InvalidActionPath);
        }
        let ghost n0 = self.nodes();
        let ghost mut ts: Seq<NodeModel> = seq![n0];
        self.reset();
        let mut i: usize = 0;
        while i < paths.len()
            invariant
                self.wf(),
                self.root == old(self).root,
                self.path@.len() == 0,
                shrinks(n0, self.nodes()),
                n0 == old(self).nodes(),
                forall|j: int| 0 <= j < paths@.len() ==> action_path(#[trigger] paths@[j]@),
                i <= paths@.len(),
                ts.len() == i + 1,
                ts[0] == n0,
                ts.last() == self.nodes(),
                forall|q: int| 0 <= q < i ==> #[trigger] path_removed(ts[q], ts[q + 1], self.root, paths@[q]@),
            decreases paths@.len() - i,
        {
            let ghost before = self.nodes();
            self.remove_path(&paths[i]);
            proof {
                let after = self.nodes();
                assert forall|q: NodeId| #[trigger] after.dom().contains(q) implies {
                    &&& n0.dom().contains(q)
                    &&& after[q].0 == n0[q].0
                    &&& forall|x: NodeId| #[trigger] after[q].1.contains(x) ==> n0[q].1.contains(x)
                } by {
                    assert(before.dom().contains(q));
                    assert forall|x: NodeId| #[trigger] after[q].1.contains(x) implies n0[q].1.contains(x) by {
                        assert(before[q].1.contains(x));
                    }
                }
                let ts2 = ts.push(after);
                assert forall|q: int| 0 <= q < i + 1 implies #[trigger] path_removed(ts2[q], ts2[q + 1], self.root, paths@[q]@) by {
                    if q < i {
                        assert(ts2[q] == ts[q] && ts2[q + 1] == ts[q + 1]);
                    } else {
                        assert(ts2[q] == before && ts2[q + 1] == after);
                    }
                }
                ts = ts2;
            }
            i = i + 1;
        }
        Ok(())
    }

    /// `ids` reordered as candidates are offered: leaves first, then branches.
    fn order_candidates(&self, ids: &Vec<NodeId>) -> (r: Vec<NodeId>)
        requires
            self.wf(),
            forall|j: int| 0 <= j < ids@.len() ==> self.nodes().dom().contains(#[trigger] ids@[j]),
        ensures
            r@ == ordered_candidates(self.nodes(), ids@),
    {
        let ghost n = self.nodes();
        let mut leaves: Vec<NodeId> = Vec::new();
        let mut branches: Vec<NodeId> = Vec::new();
        let mut i: usize = 0;
        while i < ids.len()
            invariant
                self.wf(),
                n == self.nodes(),
                i <= ids@.len(),
                forall|j: int| 0 <= j < ids@.len() ==> n.dom().contains(#[trigger] ids@[j]),
                leaves@ == leaf_ids(n, ids@.subrange(0, i as int)),
                branches@ == branch_ids(n, ids@.subrange(0, i as int)),
            decreases ids@.len() - i,
        {
            assert(ids@.subrange(0, i + 1 as int).drop_last() =~= ids@.subrange(0, i as int));
            assert(ids@.subrange(0, i + 1 as int).last() == ids@[i as int]);
            let d = arena_data(&self.arena, ids[i]);
            if d.func.is_some() {
                leaves.push(ids[i]);
            } else {
                branches.push(ids[i]);
            }
            i = i + 1;
        }
        assert(ids@.subrange(0, ids@.len() as int) =~= ids@);
        leaves.append(&mut branches);
        leaves
    }

    /// The children of the current state whose token is `tok`, in order.
    fn candidate_ids(&self, tok: PlayerAction) -> (r: Vec<NodeId>)
        requires
            self.wf(),
        ensures
            r@ == self.candidates(tok),
            forall|i: int| 0 <= i < r@.len() ==> self.nodes().dom().contains(#[trigger] r@[i])
                && self.nodes()[self.current()].1.contains(r@[i]),
    {
        let ghost n = self.nodes();
        let cur = self.current_id();
        let cs = arena_children(cur, &self.arena);
        assert forall|i: int| 0 <= i < cs@.len() implies self.nodes().dom().contains(#[trigger] cs@[i]) by {
            assert(cs@[i] == n[cur].1[i]);
        }
        let ids = self.search_type(&cs, tok);
        proof {
            lemma_matching(n, cs@, tok);
        }
        ids
    }

    /// The data of each node of `ids`.
    fn nodes_from_ids(&self, ids: &Vec<NodeId>) -> (r: Vec<NodeState>)
        requires
            self.wf(),
            forall|j: int| 0 <= j < ids@.len() ==> self.nodes().dom().contains(#[trigger] ids@[j]),
        ensures
            r@ == ids@.map_values(|id: NodeId| self.nodes()[id].0),
    {
        let ghost n = self.nodes();
        let mut nodes: Vec<NodeState> = Vec::new();
        let mut i: usize = 0;
        while i < ids.len()
            invariant
                self.wf(),
                self.nodes() == n,
                i <= ids@.len(),
                forall|j: int| 0 <= j < ids@.len() ==> n.dom().contains(#[trigger] ids@[j]),
                nodes@ == ids@.subrange(0, i as int).map_values(|id: NodeId| n[id].0),
            decreases ids@.len() - i,
        {
            let d = arena_data(&self.arena, ids[i]);
            nodes.push(d.clone());
            i = i + 1;
            assert(nodes@ =~= ids@.subrange(0, i as int).map_values(|id: NodeId| n[id].0));
        }
        assert(ids@.subrange(0, ids@.len() as int) =~= ids@);
        nodes
    }

    /// Enters the branch `id`, a child of the current state, storing `payload` on it.
    #[verifier::rlimit(60)]
    fn enter_branch(&mut self, id: NodeId, payload: Option<crate::action::IdString>)
        requires
            old(self).wf(),
            old(self).nodes().dom().contains(id),
            old(self).nodes()[id].0.func is None,
            old(self).nodes()[old(self).current()].1.contains(id),
        ensures
            final(self).wf(),
            final(self).root_id() == old(self).root_id(),
            final(self).cursor_path() == old(self).cursor_path().push(id),
            final(self).previous() == old(self).previous(),
            final(self).nodes() == old(self).nodes().insert(
                id,
                (with_payload(old(self).nodes()[id].0, payload), old(self).nodes()[id].1),
            ),
    {
        let ghost n = self.nodes();
        let mut nd = arena_data(&self.arena, id).clone();
        nd.action.data = payload;
        assert(nd == with_payload(n[id].0, payload));
        arena_set_data(&mut self.arena, id, nd);
        self.path.push(id);
        proof {
            let m = self.nodes();
            assert forall|k: NodeId| n.dom().contains(k) implies m[k].0.func == n[k].0.func
                && m[k].1 == n[k].1 && m[k].0.action.action == n[k].0.action.action by {}
            assert(m.dom() == n.dom());
            assert forall|k: NodeId, i: int| m.dom().contains(k) && 0 <= i < m[k].1.len()
                implies m.dom().contains(#[trigger] m[k].1[i]) && m[k].1[i] != self.root by {
                assert(m[k].1[i] == n[k].1[i]);
            }
            assert forall|k: NodeId| #[trigger] m.dom().contains(k) implies m[k].1.no_duplicates() && forall|x: NodeId, y: NodeId|
                #![trigger m[k].1.contains(x), m[k].1.contains(y)]
                m[k].1.contains(x) && m[k].1.contains(y) && m[x].0.func is None && m[y].0.func is None && token_of(m, x)
                    == token_of(m, y) ==> x == y by {
                assert forall|x: NodeId, y: NodeId|
                    #![trigger m[k].1.contains(x), m[k].1.contains(y)]
                    m[k].1.contains(x) && m[k].1.contains(y) && m[x].0.func is None && m[y].0.func is None && token_of(m, x)
                        == token_of(m, y) implies x == y by {
                    let ix = choose|ix: int| 0 <= ix < m[k].1.len() && m[k].1[ix] == x;
                    let iy = choose|iy: int| 0 <= iy < m[k].1.len() && m[k].1[iy] == y;
                    assert(n.dom().contains(n[k].1[ix]) && n.dom().contains(n[k].1[iy]));
                    assert(n[k].1.contains(x) && n[k].1.contains(y));
                }
            }
            let p = self.path@;
            assert forall|i: int| 0 <= i < p.len() implies {
                &&& m.dom().contains(#[trigger] p[i])
                &&& m[p[i]].0.func is None
                &&& m[if i == 0 { self.root } else { p[i - 1] }].1.contains(p[i])
            } by {
                if i < p.len() - 1 {
                    assert(p[i] == old(self).path@[i]);
                }
            }
        }
    }

    /// Resolves a leaf reached by `interaction`: returns the whole step
    /// sequence with `func` and moves the cursor back to the root.
    fn resolve_leaf(&mut self, interaction: MaoInteraction, func: CallbackInteraction) -> (r: MaoInteractionResult)
        requires
            old(self).wf(),
        ensures
            final(self).wf(),
            final(self).root_id() == old(self).root_id(),
            final(self).nodes() == old(self).nodes(),
            final(self).cursor_path().len() == 0,
            final(self).previous() == old(self).executed().push(interaction),
            r matches MaoInteractionResult::Leaf { interactions, func: f } && interactions@ == old(
                self,
            ).executed().push(interaction) && f == func,
    {
        let mut interactions = self.executed_interactions();
        interactions.push(interaction);
        self.reset();
        self.previous_interactions = clone_interactions(&interactions);
        MaoInteractionResult::Leaf { interactions, func }
    }

    /// Re-runs `on_action`; when it offers several candidates, picks the one
    /// at `index` in the returned order: a leaf resolves as in `on_action`, a
    /// branch is entered with the step's payload. An index past the
    /// candidates is an error and changes nothing; a step that does not lead
    /// to several candidates is an error too, returned once that step has
    /// been applied as `on_action` applies it.
    pub fn on_action_indexed(&mut self, interaction: MaoInteraction, index: usize) -> (r: Result<MaoInteractionResult, Error>)
        requires
            old(self).wf(),
        ensures
            final(self).wf(),
            final(self).root_id() == old(self).root_id(),
            ({
                let n = old(self).nodes();
                let c = old(self).candidates(interaction.action);
                let w = ordered_candidates(n, c);
                let v = w.map_values(|id: NodeId| n[id].0);
                &&& c.len() <= 1 ==> (r matches Err(Error::OnMaoInteraction(_)))
                &&& c.len() == 0 ==> final(self).nodes() == n && final(self).cursor_path() == old(self).cursor_path()
                    && final(self).previous() == old(self).previous()
                &&& c.len() == 1 && n[c[0]].0.func is Some ==> final(self).nodes() == n && final(self).cursor_path().len() == 0
                    && final(self).previous() == old(self).executed().push(interaction)
                &&& c.len() == 1 && n[c[0]].0.func is None ==> final(self).previous() == old(self).previous()
                    && final(self).cursor_path() == old(self).cursor_path().push(c[0])
                    && final(self).nodes() == n.insert(c[0], (with_payload(n[c[0]].0, interaction.data), n[c[0]].1))
                &&& c.len() > 1 && index >= c.len() ==> (r matches Err(
                    Error::InvalidInteractionIndex { index: i, len },
                ) && i == index && len == c.len()) && final(self).nodes() == n
                    && final(self).cursor_path() == old(self).cursor_path() && final(self).previous() == old(self).previous()
                &&& c.len() > 1 && index < c.len() && v[index as int].func is Some ==> (r matches Ok(
                    MaoInteractionResult::Leaf { interactions, func },
                ) && interactions@ == old(self).executed().push(interaction) && v[index as int].func == Some(func))
                    && final(self).nodes() == n && final(self).cursor_path().len() == 0
                    && final(self).previous() == old(self).executed().push(interaction)
                &&& c.len() > 1 && index < c.len() && v[index as int].func is None ==> (r matches Ok(
                    MaoInteractionResult::AdvancedNextState,
                )) && final(self).previous() == old(self).previous()
                    && final(self).cursor_path() == old(self).cursor_path().push(w[index as int])
                    && final(self).nodes() == n.insert(
                    w[index as int],
                    (with_payload(n[w[index as int]].0, interaction.data), n[w[index as int]].1),
                )
            }),
    {
        let ghost n = self.nodes();
        let ids = self.candidate_ids(interaction.action);
        if ids.len() <= 1 {
            let _ = self.on_action(interaction);
            return Err(Error::OnMaoInteraction("Provided index does not lead to multiple nodes".to_string()));
        }
        let ghost c = ids@;
        let ids = self.order_candidates(&ids);
        proof {
            lemma_ordered(n, c);
            assert forall|j: int| 0 <= j < ids@.len() implies self.nodes().dom().contains(#[trigger] ids@[j]) by {
                assert(c.contains(ids@[j]));
            }
        }
        let nodes = self.nodes_from_ids(&ids);
        if index >= nodes.len() {
            return Err(Error::InvalidInteractionIndex { index, len: nodes.len() });
        }
        match nodes[index].func {
            Some(func) => Ok(self.resolve_leaf(interaction, func)),
            None => {
                let id = ids[index];
                assert(c.contains(id));
                self.enter_branch(id, interaction.data);
                Ok(MaoInteractionResult::AdvancedNextState)
            },
        }
    }

    /// Moves the cursor to the parent of the current state and returns the
    /// node left; when that parent is the root (or the cursor is at the
    /// root), there is nothing to undo: nothing changes and `None` comes back.
    pub fn cancel_last(&mut self) -> (r: Option<NodeState>)
        requires
            old(self).wf(),
        ensures
            final(self).wf(),
            final(self).nodes() == old(self).nodes(),
            final(self).root_id() == old(self).root_id(),
            final(self).previous() == old(self).previous(),
            old(self).cursor_path().len() <= 1 ==> r is None && final(self).cursor_path() == old(self).cursor_path(),
            old(self).cursor_path().len() > 1 ==> r == Some(old(self).nodes()[old(self).current()].0)
                && final(self).cursor_path() == old(self).cursor_path().drop_last(),
    {
        if self.path.len() <= 1 {
            return None;
        }
        let id = self.path.pop().unwrap();
        let d = arena_data(&self.arena, id).clone();
        proof {
            let p = self.path@;
            assert forall|i: int| 0 <= i < p.len() implies {
                &&& self.nodes().dom().contains(#[trigger] p[i])
                &&& self.nodes()[p[i]].0.func is None
                &&& self.nodes()[if i == 0 { self.root } else { p[i - 1] }].1.contains(p[i])
            } by {
                assert(p[i] == old(self).path@[i]);
            }
        }
        Some(d)
    }

    /// Whether, from the current state, every token of `path` but the last
    /// leads through a branch.
    pub fn path_exists(&self, path: &Vec<PlayerAction>) -> (r: bool)
        requires
            self.wf(),
        ensures
            r == (path@.len() == 0 || walk(self.nodes(), self.current(), path@.drop_last()) is Some),
    {
        if path.len() == 0 {
            return true;
        }
        let ghost toks = path@.drop_last();
        let mut cur = self.current_id();
        let mut i: usize = 0;
        let last = path.len() - 1;
        while i < last
            invariant
                self.wf(),
                last == path@.len() - 1,
                toks == path@.drop_last(),
                i <= last,
                Some(cur) == walk(self.nodes(), self.current(), toks.subrange(0, i as int)),
                self.nodes().dom().contains(cur),
            decreases last - i,
        {
            assert(toks.subrange(0, i + 1 as int).drop_last() =~= toks.subrange(0, i as int));
            match self.get_node_id_of(cur, path[i]) {
                Some(c) => {
                    cur = c;
                },
                None => {
                    proof {
                        lemma_walk_none(self.nodes(), self.current(), toks, i as int + 1);
                    }
                    return false;
                },
            }
            i = i + 1;
        }
        assert(toks.subrange(0, last as int) =~= toks);
        true
    }

    /// The node of the current state, or `None` at the root.
    pub fn current_state(&self) -> (r: Option<NodeState>)
        requires
            self.wf(),
        ensures
            self.cursor_path().len() == 0 ==> r is None,
            self.cursor_path().len() > 0 ==> r == Some(self.nodes()[self.current()].0),
    {
        if self.path.len() == 0 {
            None
        } else {
            let id = self.path[self.path.len() - 1];
            Some(arena_data(&self.arena, id).clone())
        }
    }

    /// The nodes entered since the root, first to last.
    pub fn get_executed_actions(&self) -> (r: Vec<NodeState>)
        requires
            self.wf(),
        ensures
            r@ == self.cursor_path().map_values(|id: NodeId| self.nodes()[id].0),
    {
        let mut r: Vec<NodeState> = Vec::new();
        let mut i: usize = 0;
        while i < self.path.len()
            invariant
                self.wf(),
                i <= self.path@.len(),
                r@ == self.path@.subrange(0, i as int).map_values(|id: NodeId| self.nodes()[id].0),
            decreases self.path@.len() - i,
        {
            r.push(arena_data(&self.arena, self.path[i]).clone());
            i = i + 1;
            assert(r@ =~= self.path@.subrange(0, i as int).map_values(|id: NodeId| self.nodes()[id].0));
        }
        assert(self.path@.subrange(0, self.path@.len() as int) =~= self.path@);
        r
    }

    /// The steps committed since the root, with their payloads.
    pub fn get_executed_mao_interactions(&self) -> (r: Vec<MaoInteraction>)
        requires
            self.wf(),
        ensures
            r@ == self.executed(),
    {
        self.executed_interactions()
    }

    /// The step sequence of the last resolved leaf.
    pub fn previous_interactions(&self) -> (r: &Vec<MaoInteraction>)
        ensures
            r@ == self.previous(),
    {
        &self.previous_interactions
    }

    fn same_key_exec(x: &NodeState, y: &NodeState) -> (r: bool)
        ensures
            r == same_key(*x, *y),
    {
        if x.func.is_some() != y.func.is_some() || x.action.action != y.action.action {
            return false;
        }
        if x.func.is_some() {
            return x.func == y.func && x.same_leaf_as(y);
        }
        true
    }

    /// Whether the subtree at `x` here and the one at `y` in `other` are alike.
    fn same_node(&self, x: NodeId, other: &Automaton, y: NodeId, fuel: u64) -> (r: bool)
        requires
            self.wf(),
            other.wf(),
            self.nodes().dom().contains(x),
            other.nodes().dom().contains(y),
        ensures
            r == same_tree(self.nodes(), x, other.nodes(), y, fuel as nat),
        decreases fuel,
    {
        if fuel == 0 {
            return false;
        }
        let ghost a = self.nodes();
        let ghost b = other.nodes();
        let ghost f: nat = (fuel - 1) as nat;
        let ca = arena_children(x, &self.arena);
        let cb = arena_children(y, &other.arena);
        if ca.len() != cb.len() {
            return false;
        }
        let mut i: usize = 0;
        while i < ca.len()
            invariant
                self.wf(),
                other.wf(),
                a == self.nodes(),
                b == other.nodes(),
                f == (fuel - 1) as nat,
                a.dom().contains(x),
                b.dom().contains(y),
                ca@ == a[x].1,
                cb@ == b[y].1,
                ca@.len() == cb@.len(),
                fuel > 0,
                i <= ca@.len(),
                all_matched(a, x, b, y, 0, f) == all_matched(a, x, b, y, i as int, f),
            decreases ca@.len() - i,
        {
            assert(a.dom().contains(a[x].1[i as int]));
            let dx = arena_data(&self.arena, ca[i]);
            let mut found = false;
            let mut j: usize = 0;
            while j < cb.len() && !found
                invariant
                    self.wf(),
                    other.wf(),
                    a == self.nodes(),
                    b == other.nodes(),
                    f == (fuel - 1) as nat,
                    b.dom().contains(y),
                    a.dom().contains(x),
                    a.dom().contains(ca@[i as int]),
                    ca@ == a[x].1,
                    cb@ == b[y].1,
                    i < ca@.len(),
                    fuel > 0,
                    j <= cb@.len(),
                    *dx == a[ca@[i as int]].0,
                    found ==> any_matched(a, x, b, y, i as int, 0, f),
                    !found ==> any_matched(a, x, b, y, i as int, 0, f) == any_matched(a, x, b, y, i as int, j as int, f),
                decreases cb@.len() - j,
            {
                assert(b.dom().contains(b[y].1[j as int]));
                let dy = arena_data(&other.arena, cb[j]);
                let k = Self::same_key_exec(dx, dy);
                if k && self.same_node(ca[i], other, cb[j], fuel - 1) {
                    found = true;
                }
                j = j + 1;
            }
            if !found {
                return false;
            }
            i = i + 1;
        }
        true
    }

    /// Structural equality: the two trees match from their roots, children
    /// compared without regard to order, branches by token and leaves by
    /// token, owning rule and handler.
    pub fn same_structure(&self, other: &Automaton) -> (r: bool)
        requires
            self.wf(),
            other.wf(),
        ensures
            r == same_tree(self.nodes(), self.root_id(), other.nodes(), other.root_id(), u64::MAX as nat),
    {
        self.same_node(self.root, other, other.root, u64::MAX)
    }

    /// Moves the cursor back to the root and forgets the last resolved sequence.
    pub fn reset(&mut self)
        requires
            old(self).wf(),
        ensures
            final(self).wf(),
            final(self).nodes() == old(self).nodes(),
            final(self).root_id() == old(self).root_id(),
            final(self).cursor_path().len() == 0,
            final(self).previous().len() == 0,
    {
        self.path = Vec::new();
        self.previous_interactions = Vec::new();
    }
}

fn clone_interactions(v: &Vec<MaoInteraction>) -> (r: Vec<MaoInteraction>)
    ensures
        r@ == v@,
{
    let mut r: Vec<MaoInteraction> = Vec::new();
    let mut i: usize = 0;
    while i < v.len()
        invariant
            i <= v@.len(),
            r@ == v@.subrange(0, i as int),
        decreases v@.len() - i,
    {
        r.push(v[i].clone());
        i = i + 1;
        assert(r@ =~= v@.subrange(0, i as int));
    }
    assert(v@.subrange(0, v@.len() as int) =~= v@);
    r
}

} // verus!
