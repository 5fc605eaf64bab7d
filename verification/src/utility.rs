use crate::arena::Arena;
use crate::arena::ArenaId;
use vstd::prelude::*;

verus! {

/// What a node of the scene graph hangs from.
#[derive(Debug, Clone, Copy, PartialEq, Eq, Structural)]
pub enum NodeParent {
    /// Another node, by its slot.
    Node(usize),
    /// A scene, by its slot: the node is a root of that scene.
    Scene(usize),
    /// Nothing: the node takes no part in any scene.
    Orphan,
}

impl Default for NodeParent {
    fn default() -> (parent: Self)
        ensures
            parent is Orphan,
    {
        Self::Orphan
    }
}

/// Whether the node in slot `i` hangs from a scene by a chain of at most `fuel`
/// nodes, all of them live.
pub open spec fn reaches_scene(slots: Seq<Option<NodeParent>>, i: usize, fuel: nat) -> bool
    decreases fuel,
{
    if fuel == 0 || i >= slots.len() {
        false
    } else {
        match slots[i as int] {
            Some(NodeParent::Scene(_)) => true,
            Some(NodeParent::Node(p)) => reaches_scene(slots, p, (fuel - 1) as nat),
            _ => false,
        }
    }
}

/// Whether the node in slot `i` belongs to a scene: it is a root of one, or
/// hangs from a node that belongs to one.
pub open spec fn in_scene(slots: Seq<Option<NodeParent>>, i: usize) -> bool {
    exists|fuel: nat| reaches_scene(slots, i, fuel)
}

/// Whether the node in slot `c` hangs from the node in slot `p`.
pub open spec fn hangs_from(slots: Seq<Option<NodeParent>>, c: usize, p: usize) -> bool {
    c < slots.len() && slots[c as int] == Some(NodeParent::Node(p))
}

/// Whether the node in slot `i` is a root of a scene.
pub open spec fn is_root(slots: Seq<Option<NodeParent>>, i: usize) -> bool {
    i < slots.len() && slots[i as int] matches Some(NodeParent::Scene(_))
}

/// The slots that a list of handles names.
pub open spec fn slots_of(ids: Seq<ArenaId<NodeParent>>) -> Seq<usize> {
    ids.map_values(|id: ArenaId<NodeParent>| id.index)
}

/// Whether `order` lists the nodes that belong to a scene, each once, and
/// every node behind the node it hangs from.
pub open spec fn sorts(slots: Seq<Option<NodeParent>>, order: Seq<usize>) -> bool {
    &&& order.no_duplicates()
    &&& forall|i: usize| #[trigger] order.contains(i) <==> in_scene(slots, i)
    &&& forall|k: int, p: usize|
        0 <= k < order.len() && #[trigger] hangs_from(slots, order[k], p) ==> exists|j: int|
            0 <= j < k && order[j] == p
}

/// The nodes in the slots below `upto` that hang from the node in slot `p`, in
/// slot order.
pub open spec fn kids(slots: Seq<Option<NodeParent>>, p: usize, upto: usize) -> Seq<usize>
    decreases upto,
{
    if upto == 0 {
        Seq::empty()
    } else {
        let before = kids(slots, p, (upto - 1) as usize);
        if hangs_from(slots, (upto - 1) as usize, p) {
            before.push((upto - 1) as usize)
        } else {
            before
        }
    }
}

/// The roots in the slots below `upto`, in slot order.
pub open spec fn roots(slots: Seq<Option<NodeParent>>, upto: usize) -> Seq<usize>
    decreases upto,
{
    if upto == 0 {
        Seq::empty()
    } else {
        let before = roots(slots, (upto - 1) as usize);
        if is_root(slots, (upto - 1) as usize) {
            before.push((upto - 1) as usize)
        } else {
            before
        }
    }
}

/// The nodes that wait once the node that waited last has been taken up: the
/// others, and behind them the nodes that hang from it, in slot order. The
/// graph has `n` slots.
pub open spec fn taken_up(slots: Seq<Option<NodeParent>>, n: usize, waiting: Seq<usize>) -> Seq<
    usize,
> {
    waiting.drop_last() + kids(slots, waiting.last(), n)
}

/// The first `steps` nodes of the walk that starts with the nodes of `waiting`
/// waiting: at every step the node that waits last is taken up.
pub open spec fn walk(slots: Seq<Option<NodeParent>>, n: usize, waiting: Seq<usize>, steps: nat) -> Seq<
    usize,
>
    decreases steps,
{
    if steps == 0 || waiting.len() == 0 {
        Seq::empty()
    } else {
        seq![waiting.last()] + walk(slots, n, taken_up(slots, n, waiting), (steps - 1) as nat)
    }
}

/// The nodes that wait after `steps` steps of the walk.
pub open spec fn left_waiting(
    slots: Seq<Option<NodeParent>>,
    n: usize,
    waiting: Seq<usize>,
    steps: nat,
) -> Seq<usize>
    decreases steps,
{
    if steps == 0 || waiting.len() == 0 {
        waiting
    } else {
        left_waiting(slots, n, taken_up(slots, n, waiting), (steps - 1) as nat)
    }
}

/// Whether `order` is the walk through a graph of `n` slots from its roots,
/// run until no node waits: the roots are taken up last first, and behind each
/// node come the nodes that hang from it, last first too.
pub open spec fn is_walk(slots: Seq<Option<NodeParent>>, n: usize, order: Seq<usize>) -> bool {
    &&& order == walk(slots, n, roots(slots, n), order.len())
    &&& left_waiting(slots, n, roots(slots, n), order.len()).len() == 0
}

/// One more step of a walk takes up the node that waits last.
pub proof fn lemma_walk_step(
    slots: Seq<Option<NodeParent>>,
    n: usize,
    waiting: Seq<usize>,
    steps: nat,
)
    requires
        left_waiting(slots, n, waiting, steps).len() > 0,
    ensures
        walk(slots, n, waiting, steps + 1) == walk(slots, n, waiting, steps).push(
            left_waiting(slots, n, waiting, steps).last(),
        ),
        left_waiting(slots, n, waiting, steps + 1) == taken_up(
            slots,
            n,
            left_waiting(slots, n, waiting, steps),
        ),
    decreases steps,
{
    let next = taken_up(slots, n, waiting);
    if steps == 0 {
        assert(waiting.len() > 0);
        assert(walk(slots, n, next, 0) == Seq::<usize>::empty());
        assert(left_waiting(slots, n, next, 0) == next);
        assert(walk(slots, n, waiting, 1) == seq![waiting.last()] + walk(slots, n, next, 0));
        assert(left_waiting(slots, n, waiting, 1) == left_waiting(slots, n, next, 0));
        assert(seq![waiting.last()] + Seq::<usize>::empty() =~= Seq::<usize>::empty().push(
            waiting.last(),
        ));
    } else {
        let fewer = (steps - 1) as nat;
        assert(waiting.len() > 0);
        assert(left_waiting(slots, n, waiting, steps) == left_waiting(slots, n, next, fewer));
        lemma_walk_step(slots, n, next, fewer);
        assert(fewer + 1 == steps);
        let more = walk(slots, n, next, fewer);
        let last = left_waiting(slots, n, next, fewer).last();
        assert(walk(slots, n, waiting, steps + 1) == seq![waiting.last()] + walk(
            slots,
            n,
            next,
            steps,
        ));
        assert(left_waiting(slots, n, waiting, steps + 1) == left_waiting(slots, n, next, steps));
        assert(walk(slots, n, waiting, steps) == seq![waiting.last()] + more);
        assert(seq![waiting.last()] + more.push(last) =~= (seq![waiting.last()] + more).push(last));
    }
}

/// The nodes that hang from a node are listed once each, and hang from it.
pub proof fn lemma_kids(slots: Seq<Option<NodeParent>>, p: usize, upto: usize)
    ensures
        kids(slots, p, upto).no_duplicates(),
        forall|c: usize| #[trigger]
            kids(slots, p, upto).contains(c) <==> c < upto && hangs_from(slots, c, p),
    decreases upto,
{
    if upto > 0 {
        let before = kids(slots, p, (upto - 1) as usize);
        let last = (upto - 1) as usize;
        lemma_kids(slots, p, (upto - 1) as usize);
        if hangs_from(slots, last, p) {
            assert forall|c: usize| #[trigger]
                kids(slots, p, upto).contains(c) <==> c < upto && hangs_from(slots, c, p) by {
                vstd::seq_lib::lemma_seq_contains_after_push(before, last, c);
            }
            assert forall|i: int, j: int|
                0 <= i < before.push(last).len() && 0 <= j < before.push(last).len() && i
                    != j implies before.push(last)[i] != before.push(last)[j] by {
                if i < before.len() {
                    assert(before.contains(before[i]));
                }
                if j < before.len() {
                    assert(before.contains(before[j]));
                }
            }
        }
    } else {
        assert forall|c: usize| !(#[trigger] kids(slots, p, upto).contains(c)) by {}
    }
}

/// The number of entries of the list that are not set.
pub open spec fn unset(marks: Seq<bool>) -> nat
    decreases marks.len(),
{
    if marks.len() == 0 {
        0
    } else {
        unset(marks.drop_last()) + if marks.last() { 0nat } else { 1nat }
    }
}

/// Setting an entry that was not set leaves one unset entry fewer.
pub proof fn lemma_unset_after_set(marks: Seq<bool>, at: int)
    requires
        0 <= at < marks.len(),
        !marks[at],
    ensures
        unset(marks.update(at, true)) + 1 == unset(marks),
    decreases marks.len(),
{
    let after = marks.update(at, true);
    if at == marks.len() - 1 {
        assert(after.drop_last() == marks.drop_last());
    } else {
        lemma_unset_after_set(marks.drop_last(), at);
        assert(after.drop_last() == marks.drop_last().update(at, true));
    }
}

/// A node that hangs from a node of a scene belongs to the scene, and so does
/// every root.
pub proof fn lemma_in_scene_step(slots: Seq<Option<NodeParent>>, c: usize, p: usize)
    requires
        hangs_from(slots, c, p),
        in_scene(slots, p),
    ensures
        in_scene(slots, c),
{
    let fuel = choose|fuel: nat| reaches_scene(slots, p, fuel);
    assert(reaches_scene(slots, c, fuel + 1));
}

/// A root belongs to its scene.
pub proof fn lemma_root_in_scene(slots: Seq<Option<NodeParent>>, i: usize)
    requires
        is_root(slots, i),
    ensures
        in_scene(slots, i),
{
    assert(reaches_scene(slots, i, 1));
}

/// A list that holds every root, and with every node the nodes that hang from
/// it, holds every node that belongs to a scene.
pub proof fn lemma_closed_holds_all(
    slots: Seq<Option<NodeParent>>,
    order: Seq<usize>,
    i: usize,
    fuel: nat,
)
    requires
        forall|r: usize| is_root(slots, r) ==> order.contains(r),
        forall|c: usize, p: usize|
            order.contains(p) && #[trigger] hangs_from(slots, c, p) ==> order.contains(c),
        reaches_scene(slots, i, fuel),
    ensures
        order.contains(i),
    decreases fuel,
{
    match slots[i as int] {
        Some(NodeParent::Scene(_)) => {
            assert(is_root(slots, i));
        },
        Some(NodeParent::Node(p)) => {
            lemma_closed_holds_all(slots, order, p, (fuel - 1) as nat);
            assert(hangs_from(slots, i, p));
        },
        _ => {},
    }
}

/// The roots are listed once each.
pub proof fn lemma_roots(slots: Seq<Option<NodeParent>>, upto: usize)
    ensures
        roots(slots, upto).no_duplicates(),
        forall|r: usize| #[trigger]
            roots(slots, upto).contains(r) <==> r < upto && is_root(slots, r),
    decreases upto,
{
    if upto > 0 {
        let before = roots(slots, (upto - 1) as usize);
        let last = (upto - 1) as usize;
        lemma_roots(slots, (upto - 1) as usize);
        if is_root(slots, last) {
            assert forall|r: usize| #[trigger]
                roots(slots, upto).contains(r) <==> r < upto && is_root(slots, r) by {
                vstd::seq_lib::lemma_seq_contains_after_push(before, last, r);
            }
            assert forall|i: int, j: int|
                0 <= i < before.push(last).len() && 0 <= j < before.push(last).len() && i
                    != j implies before.push(last)[i] != before.push(last)[j] by {
                if i < before.len() {
                    assert(before.contains(before[i]));
                }
                if j < before.len() {
                    assert(before.contains(before[j]));
                }
            }
        }
    } else {
        assert forall|r: usize| !(#[trigger] roots(slots, upto).contains(r)) by {}
    }
}

/// For every slot, the nodes that hang from the node in it, in slot order.
fn children_of(nodes: &Arena<NodeParent>) -> (children: Vec<Vec<usize>>)
    ensures
        children@.len() == nodes@.len(),
        forall|p: usize|
            p < nodes@.len() ==> (#[trigger] children@[p as int])@ == kids(
                nodes@,
                p,
                nodes@.len() as usize,
            ),
{
    let n: usize = nodes.len();
    let mut children: Vec<Vec<usize>> = Vec::new();
    let mut k: usize = 0;
    while k < n
        invariant
            k <= n,
            children@.len() == k,
            forall|p: int| 0 <= p < k ==> (#[trigger] children@[p])@.len() == 0,
        decreases n - k,
    {
        children.push(Vec::new());
        k += 1;
    }
    let mut i: usize = 0;
    proof {
        assert forall|p: usize| p < n implies (#[trigger] children@[p as int])@ == kids(
            nodes@,
            p,
            0,
        ) by {
            assert(children@[p as int]@.len() == 0);
            assert(children@[p as int]@ =~= Seq::<usize>::empty());
        }
    }
    while i < n
        invariant
            i <= n,
            n == nodes@.len(),
            children@.len() == n,
            forall|p: usize| p < n ==> (#[trigger] children@[p as int])@ == kids(nodes@, p, i),
        decreases n - i,
    {
        let ghost before = children@;
        match nodes.get(&ArenaId::new(i)) {
            Some(NodeParent::Node(parent)) => {
                let parent: usize = *parent;
                if parent < n {
                    let ghost list = children@[parent as int]@;
                    children[parent].push(i);
                    proof {
                        assert(children@[parent as int]@ == list.push(i));
                        assert forall|p: usize| p < n implies (#[trigger] children@[p as int])@
                            == kids(nodes@, p, (i + 1) as usize) by {
                            assert(before[p as int]@ == kids(nodes@, p, i));
                            if p != parent {
                                assert(children@[p as int] == before[p as int]);
                            }
                        }
                    }
                } else {
                    proof {
                        assert forall|p: usize| p < n implies (#[trigger] children@[p as int])@
                            == kids(nodes@, p, (i + 1) as usize) by {}
                    }
                }
            },
            _ => {
                proof {
                    assert forall|p: usize| p < n implies (#[trigger] children@[p as int])@
                        == kids(nodes@, p, (i + 1) as usize) by {}
                }
            },
        }
        i += 1;
    }
    children
}

/// Whether `order`, with the nodes still waiting in `stack`, is a walk under
/// way: the marks are set for exactly the nodes of the two lists, which name
/// no node twice; every such node belongs to a scene; every root is among
/// them; a node that waits hangs from nothing or from a node of the order; and
/// in the order every node stands behind the node it hangs from.
pub open spec fn walking(
    slots: Seq<Option<NodeParent>>,
    marks: Seq<bool>,
    stack: Seq<usize>,
    order: Seq<usize>,
) -> bool {
    &&& marks.len() == slots.len()
    &&& stack.no_duplicates()
    &&& order.no_duplicates()
    &&& forall|i: usize|
        i < marks.len() && #[trigger] marks[i as int] ==> stack.contains(i) || order.contains(i)
    &&& forall|i: usize| #[trigger] stack.contains(i) ==> i < marks.len() && marks[i as int]
    &&& forall|i: usize| #[trigger] order.contains(i) ==> i < marks.len() && marks[i as int]
    &&& forall|i: usize| !(stack.contains(i) && #[trigger] order.contains(i))
    &&& forall|i: usize| stack.contains(i) || order.contains(i) ==> #[trigger] in_scene(slots, i)
    &&& forall|r: usize| #[trigger] is_root(slots, r) ==> stack.contains(r) || order.contains(r)
    &&& forall|k: int, p: usize|
        0 <= k < stack.len() && #[trigger] hangs_from(slots, stack[k], p) ==> order.contains(p)
    &&& forall|k: int, p: usize|
        0 <= k < order.len() && #[trigger] hangs_from(slots, order[k], p) ==> exists|j: int|
            0 <= j < k && order[j] == p
}

/// Lists the nodes that belong to a scene so that every node comes behind the
/// node it hangs from: the roots are taken up last first, and behind each node
/// come the nodes that hang from it, last first too. The handles are appended
/// to `sorted_nodes`.
pub fn topo_sort_nodes(nodes: &Arena<NodeParent>, sorted_nodes: &mut Vec<ArenaId<NodeParent>>)
    ensures
        old(sorted_nodes)@.len() <= final(sorted_nodes)@.len(),
        final(sorted_nodes)@.subrange(0, old(sorted_nodes)@.len() as int) == old(sorted_nodes)@,
        is_walk(
            nodes@,
            nodes@.len() as usize,
            slots_of(
                final(sorted_nodes)@.subrange(
                    old(sorted_nodes)@.len() as int,
                    final(sorted_nodes)@.len() as int,
                ),
            ),
        ),
        sorts(
            nodes@,
            slots_of(
                final(sorted_nodes)@.subrange(
                    old(sorted_nodes)@.len() as int,
                    final(sorted_nodes)@.len() as int,
                ),
            ),
        ),
{
    let n: usize = nodes.len();
    let children = children_of(nodes);
    let mut marks: Vec<bool> = Vec::new();
    let mut stack: Vec<usize> = Vec::new();
    let mut order: Vec<usize> = Vec::new();
    let mut i: usize = 0;
    while i < n
        invariant
            i <= n,
            n == nodes@.len(),
            marks@.len() == i,
            stack@ == roots(nodes@, i),
            forall|r: usize| r < i ==> (marks@[r as int] <==> is_root(nodes@, r)),
        decreases n - i,
    {
        let root = match nodes.get(&ArenaId::new(i)) {
            Some(NodeParent::Scene(_)) => true,
            _ => false,
        };
        marks.push(root);
        if root {
            stack.push(i);
        }
        i += 1;
    }
    let ghost first = stack@;
    proof {
        lemma_roots(nodes@, n);
        assert forall|r: usize| stack@.contains(r) implies #[trigger] in_scene(nodes@, r) by {
            lemma_root_in_scene(nodes@, r);
        }
        assert forall|r: usize| #[trigger] stack@.contains(r) implies r < marks@.len()
            && marks@[r as int] by {
            assert(r < n && is_root(nodes@, r));
        }
        assert forall|k: int, p: usize|
            0 <= k < stack@.len() && #[trigger] hangs_from(
                nodes@,
                stack@[k],
                p,
            ) implies order@.contains(p) by {
            assert(stack@.contains(stack@[k]));
            assert(is_root(nodes@, stack@[k]));
        }
        assert forall|r: usize| r < marks@.len() && #[trigger] marks@[r as int] implies stack@.contains(
            r,
        ) || order@.contains(r) by {
            assert(is_root(nodes@, r));
        }
        assert(walking(nodes@, marks@, stack@, order@));
        assert(order@ =~= walk(nodes@, n, first, 0));
    }
    while stack.len() > 0
        invariant
            n == nodes@.len(),
            first == roots(nodes@, n),
            children@.len() == n,
            forall|p: usize| p < n ==> (#[trigger] children@[p as int])@ == kids(nodes@, p, n),
            walking(nodes@, marks@, stack@, order@),
            forall|p: usize, c: usize|
                order@.contains(p) && #[trigger] hangs_from(nodes@, c, p) ==> stack@.contains(c)
                    || order@.contains(c),
            order@ == walk(nodes@, n, first, order@.len()),
            stack@ == left_waiting(nodes@, n, first, order@.len()),
        decreases 2 * unset(marks@) + stack@.len(),
    {
        let ghost stack0 = stack@;
        let ghost order0 = order@;
        proof {
            lemma_walk_step(nodes@, n, first, order0.len());
        }
        let node: usize = stack.pop().unwrap();
        proof {
            assert(stack0.contains(node));
            assert(stack0 == stack@.push(node));
            assert(stack@ == stack0.drop_last());
            assert(!stack@.contains(node)) by {
                if stack@.contains(node) {
                    let k = choose|k: int| 0 <= k < stack@.len() && stack@[k] == node;
                    assert(stack0[k] == stack0[stack0.len() - 1]);
                }
            }
            assert(!order0.contains(node));
        }
        order.push(node);
        proof {
            assert(marks@[node as int]);
            assert(order@[order0.len() as int] == node);
            assert forall|j: usize| order@.contains(j) <==> order0.contains(j) || j == node by {
                vstd::seq_lib::lemma_seq_contains_after_push(order0, node, j);
            }
            assert forall|j: usize| stack0.contains(j) <==> stack@.contains(j) || j == node by {
                vstd::seq_lib::lemma_seq_contains_after_push(stack@, node, j);
            }
            assert(order@.no_duplicates()) by {
                assert forall|a: int, b: int|
                    0 <= a < order@.len() && 0 <= b < order@.len() && a != b implies order@[a]
                    != order@[b] by {
                    if a < order0.len() {
                        assert(order0.contains(order@[a]));
                    }
                    if b < order0.len() {
                        assert(order0.contains(order@[b]));
                    }
                }
            }
            assert forall|k: int, p: usize|
                0 <= k < order@.len() && #[trigger] hangs_from(
                    nodes@,
                    order@[k],
                    p,
                ) implies exists|j: int| 0 <= j < k && order@[j] == p by {
                if k < order0.len() {
                    assert(hangs_from(nodes@, order0[k], p));
                    let j = choose|j: int| 0 <= j < k && order0[j] == p;
                    assert(order@[j] == p);
                } else {
                    assert(hangs_from(nodes@, stack0[stack0.len() - 1], p));
                    assert(order0.contains(p));
                    let j = choose|j: int| 0 <= j < order0.len() && order0[j] == p;
                    assert(order@[j] == p);
                }
            }
            assert forall|k: int, p: usize|
                0 <= k < stack@.len() && #[trigger] hangs_from(
                    nodes@,
                    stack@[k],
                    p,
                ) implies order@.contains(p) by {
                assert(hangs_from(nodes@, stack0[k], p));
            }
            assert forall|j: usize| #[trigger] stack@.contains(j) implies j < marks@.len()
                && marks@[j as int] by {
                assert(stack0.contains(j));
            }
            assert forall|j: usize| #[trigger] order@.contains(j) implies j < marks@.len()
                && marks@[j as int] by {
                if j != node {
                    assert(order0.contains(j));
                }
            }
            assert forall|j: usize|
                j < marks@.len() && #[trigger] marks@[j as int] implies stack@.contains(j)
                || order@.contains(j) by {
                assert(stack0.contains(j) || order0.contains(j));
                if stack0.contains(j) {
                    vstd::seq_lib::lemma_seq_contains_after_push(stack@, node, j);
                } else {
                    vstd::seq_lib::lemma_seq_contains_after_push(order0, node, j);
                }
            }
            assert forall|j: usize| !(stack@.contains(j) && #[trigger] order@.contains(j)) by {
                if stack@.contains(j) && order@.contains(j) {
                    assert(stack0.contains(j));
                    assert(j != node);
                    assert(order0.contains(j));
                }
            }
            assert forall|j: usize| stack@.contains(j) || order@.contains(j) implies #[trigger] in_scene(
                nodes@,
                j,
            ) by {
                assert(stack0.contains(j) || order0.contains(j));
            }
            assert forall|r: usize| #[trigger] is_root(nodes@, r) implies stack@.contains(r)
                || order@.contains(r) by {
                assert(stack0.contains(r) || order0.contains(r));
            }
            assert(walking(nodes@, marks@, stack@, order@));
        }
        let ghost rest = stack@;
        let ghost marks_before = marks@;
        let list = &children[node];
        proof {
            lemma_kids(nodes@, node, n);
            assert forall|c: usize| #[trigger] hangs_from(nodes@, c, node) implies !rest.contains(
                c,
            ) && !order@.contains(c) by {
                if rest.contains(c) {
                    let k = choose|k: int| 0 <= k < rest.len() && rest[k] == c;
                    assert(hangs_from(nodes@, stack0[k], node));
                    assert(order0.contains(node));
                }
                if order@.contains(c) {
                    if c == node {
                        assert(hangs_from(nodes@, stack0[stack0.len() - 1], node));
                        assert(order0.contains(node));
                    } else {
                        assert(order0.contains(c));
                        let k = choose|k: int| 0 <= k < order0.len() && order0[k] == c;
                        assert(hangs_from(nodes@, order0[k], node));
                        let j = choose|j: int| 0 <= j < k && order0[j] == node;
                        assert(order0.contains(node));
                    }
                }
            }
            assert(stack@ =~= rest + list@.take(0));
        }
        let mut m: usize = 0;
        while m < list.len()
            invariant
                n == nodes@.len(),
                node < n,
                m <= list@.len(),
                order@.contains(node),
                list@ == kids(nodes@, node, n),
                list@.no_duplicates(),
                forall|c: usize| list@.contains(c) <==> c < n && hangs_from(nodes@, c, node),
                forall|c: usize| #[trigger]
                    hangs_from(nodes@, c, node) ==> !rest.contains(c) && !order@.contains(c),
                stack@ == rest + list@.take(m as int),
                walking(nodes@, marks@, stack@, order@),
                forall|p: usize, c: usize|
                    order0.contains(p) && #[trigger] hangs_from(nodes@, c, p) ==> stack@.contains(c)
                        || order@.contains(c),
                forall|k: int|
                    0 <= k < m ==> stack@.contains(#[trigger] list@[k]) || order@.contains(list@[k]),
                2 * unset(marks@) + stack@.len() <= 2 * unset(marks_before) + rest.len(),
            decreases list@.len() - m,
        {
            let child: usize = list[m];
            let ghost marks0 = marks@;
            let ghost stack1 = stack@;
            proof {
                assert(list@.contains(child));
                assert(hangs_from(nodes@, child, node));
                assert(!stack1.contains(child)) by {
                    if stack1.contains(child) {
                        let k = choose|k: int| 0 <= k < stack1.len() && stack1[k] == child;
                        if k < rest.len() {
                            assert(rest[k] == child);
                            assert(rest.contains(child));
                        } else {
                            assert(list@.take(m as int)[k - rest.len()] == child);
                            assert(list@[k - rest.len()] == list@[m as int]);
                        }
                    }
                }
                assert(!marks0[child as int]);
            }
            marks.set(child, true);
            stack.push(child);
            proof {
                lemma_unset_after_set(marks0, child as int);
                lemma_in_scene_step(nodes@, child, node);
                assert(stack@ =~= rest + list@.take(m + 1)) by {
                    assert(list@.take(m + 1) =~= list@.take(m as int).push(child));
                }
                assert forall|j: usize| stack@.contains(j) <==> stack1.contains(j) || j == child by {
                    vstd::seq_lib::lemma_seq_contains_after_push(stack1, child, j);
                }
                assert(stack@.no_duplicates()) by {
                    assert forall|a: int, b: int|
                        0 <= a < stack@.len() && 0 <= b < stack@.len() && a != b implies stack@[a]
                        != stack@[b] by {
                        if a < stack1.len() {
                            assert(stack1.contains(stack@[a]));
                        }
                        if b < stack1.len() {
                            assert(stack1.contains(stack@[b]));
                        }
                    }
                }
                assert forall|k: int, p: usize|
                    0 <= k < stack@.len() && #[trigger] hangs_from(
                        nodes@,
                        stack@[k],
                        p,
                    ) implies order@.contains(p) by {
                    if k < stack1.len() {
                        assert(hangs_from(nodes@, stack1[k], p));
                    }
                }
                assert forall|j: usize| #[trigger] stack@.contains(j) implies j < marks@.len()
                    && marks@[j as int] by {
                    if j != child {
                        assert(stack1.contains(j));
                        assert(marks0[j as int]);
                    }
                }
                assert forall|j: usize| #[trigger] order@.contains(j) implies j < marks@.len()
                    && marks@[j as int] by {
                    assert(marks0[j as int]);
                }
                assert forall|j: usize|
                    j < marks@.len() && #[trigger] marks@[j as int] implies stack@.contains(j)
                    || order@.contains(j) by {
                    if j != child {
                        assert(marks0[j as int]);
                        assert(stack1.contains(j) || order@.contains(j));
                    }
                }
                assert forall|j: usize| !(stack@.contains(j) && #[trigger] order@.contains(j)) by {
                    if stack@.contains(j) && order@.contains(j) {
                        if j != child {
                            assert(stack1.contains(j));
                        }
                    }
                }
                assert forall|j: usize|
                    stack@.contains(j) || order@.contains(j) implies #[trigger] in_scene(
                    nodes@,
                    j,
                ) by {
                    if j != child {
                        assert(stack1.contains(j) || order@.contains(j));
                    }
                }
                assert forall|r: usize| #[trigger] is_root(nodes@, r) implies stack@.contains(r)
                    || order@.contains(r) by {
                    assert(stack1.contains(r) || order@.contains(r));
                }
                assert(walking(nodes@, marks@, stack@, order@));
            }
            m += 1;
        }
        proof {
            assert(list@.take(m as int) == list@);
            assert(stack@ == taken_up(nodes@, n, stack0));
            assert forall|p: usize, c: usize|
                order@.contains(p) && #[trigger] hangs_from(
                    nodes@,
                    c,
                    p,
                ) implies stack@.contains(c) || order@.contains(c) by {
                if p == node {
                    assert(list@.contains(c));
                    let k = choose|k: int| 0 <= k < list@.len() && list@[k] == c;
                    assert(stack@.contains(list@[k]) || order@.contains(list@[k]));
                } else {
                    assert(order0.contains(p));
                }
            }
        }
    }
    proof {
        assert forall|i: usize| #[trigger] order@.contains(i) <==> in_scene(nodes@, i) by {
            if in_scene(nodes@, i) {
                let fuel = choose|fuel: nat| reaches_scene(nodes@, i, fuel);
                assert forall|c: usize, p: usize|
                    order@.contains(p) && #[trigger] hangs_from(
                        nodes@,
                        c,
                        p,
                    ) implies order@.contains(c) by {
                    assert(stack@.contains(c) || order@.contains(c));
                    assert(stack@.len() == 0);
                }
                assert forall|r: usize| is_root(nodes@, r) implies order@.contains(r) by {
                    assert(stack@.contains(r) || order@.contains(r));
                    assert(stack@.len() == 0);
                }
                lemma_closed_holds_all(nodes@, order@, i, fuel);
            }
        }
        assert(sorts(nodes@, order@));
        assert(is_walk(nodes@, n, order@));
    }
    let ghost start = sorted_nodes@;
    let mut k: usize = 0;
    while k < order.len()
        invariant
            k <= order@.len(),
            sorted_nodes@.len() == start.len() + k,
            sorted_nodes@.subrange(0, start.len() as int) == start,
            slots_of(sorted_nodes@.subrange(start.len() as int, sorted_nodes@.len() as int))
                == order@.take(k as int),
        decreases order@.len() - k,
    {
        let ghost before = sorted_nodes@;
        sorted_nodes.push(ArenaId::new(order[k]));
        k += 1;
        proof {
            assert(sorted_nodes@.subrange(0, start.len() as int) =~= start);
            assert(slots_of(sorted_nodes@.subrange(start.len() as int, sorted_nodes@.len() as int))
                =~= order@.take(k as int)) by {
                let now = slots_of(
                    sorted_nodes@.subrange(start.len() as int, sorted_nodes@.len() as int),
                );
                let was = slots_of(before.subrange(start.len() as int, before.len() as int));
                assert(now.len() == k);
                assert forall|j: int| 0 <= j < k implies now[j] == order@[j] by {
                    if j < k - 1 {
                        assert(was[j] == order@.take(k - 1)[j]);
                        assert(before.subrange(start.len() as int, before.len() as int)[j]
                            == sorted_nodes@[start.len() + j]);
                    }
                }
            }
        }
    }
    proof {
        assert(order@.take(k as int) == order@);
    }
}

} // verus!
