use pge::utility::topo_sort_nodes;
use pge::utility::NodeParent;
use pge::Arena;
use pge::ArenaId;

#[test]
pub fn topo_sort_nodes_test() {
    let mut scenes = Arena::new();
    let scene_id: ArenaId<u8> = scenes.insert(0u8);
    let scene = scene_id.index();
    let mut nodes = Arena::new();

    let parent1 = nodes.insert(NodeParent::Orphan);
    let parent2 = nodes.insert(NodeParent::Scene(scene));
    let parent3 = nodes.insert(NodeParent::Scene(scene));
    let child1 = nodes.insert(NodeParent::Node(parent1.index()));
    let child2 = nodes.insert(NodeParent::Node(parent2.index()));
    let _child3 = nodes.insert(NodeParent::Node(child1.index()));
    let child4 = nodes.insert(NodeParent::Node(parent3.index()));
    let mut sorted_nodes = Vec::new();
    topo_sort_nodes(&nodes, &mut sorted_nodes);
    assert_eq!(sorted_nodes, vec![parent3, child4, parent2, child2]);
}

#[test]
fn topo_sort_puts_every_node_behind_its_parent() {
    let mut nodes = Arena::new();
    let root = nodes.insert(NodeParent::Scene(0));
    let a = nodes.insert(NodeParent::Node(root.index()));
    let b = nodes.insert(NodeParent::Node(root.index()));
    let a1 = nodes.insert(NodeParent::Node(a.index()));
    let gone = nodes.insert(NodeParent::Node(root.index()));
    let lost = nodes.insert(NodeParent::Node(gone.index()));
    let far = nodes.insert(NodeParent::Node(99));
    nodes.remove(&gone);
    // Two nodes that hang from each other belong to no scene.
    let first = nodes.insert(NodeParent::Node(7));
    let second = nodes.insert(NodeParent::Node(first.index()));
    assert_eq!((first.index(), second.index()), (4, 7));
    let mut sorted_nodes = vec![ArenaId::new(42)];
    topo_sort_nodes(&nodes, &mut sorted_nodes);
    assert_eq!(sorted_nodes, vec![ArenaId::new(42), root, b, a, a1]);
    assert!(!sorted_nodes.contains(&lost));
    assert!(!sorted_nodes.contains(&far));
    assert_eq!(NodeParent::default(), NodeParent::Orphan);
}
