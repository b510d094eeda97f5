use node_graph::clipboard::map_ids;
use node_graph::graph::{DocumentNode, EditError, NodeInput, NodeNetwork, NodeOutput};
use node_graph::handler::{NodeGraphAction, NodeGraphMessageHandler};
use node_graph::registry::{NodeType, NodeTypeRegistry};

fn value(data: u64, exposed: bool) -> NodeInput {
    NodeInput::Value { data, exposed }
}

fn conn(node_id: u64) -> NodeInput {
    NodeInput::Node { node_id, output_index: 0, lambda: false }
}

fn node(inputs: Vec<NodeInput>, x: i32) -> DocumentNode {
    DocumentNode {
        type_id: 1,
        inputs,
        is_layer: false,
        display_as_layer: false,
        has_primary_output: true,
        visible: true,
        locked: false,
        x,
        y: 0,
    }
}

fn registry() -> NodeTypeRegistry {
    NodeTypeRegistry {
        types: vec![NodeType { type_id: 1, inputs: vec![value(7, false), value(9, false)] }],
    }
}

fn network(nodes: Vec<(u64, DocumentNode)>, exports: Vec<u64>) -> NodeNetwork {
    NodeNetwork {
        nodes,
        imports: vec![],
        exports: exports.into_iter().map(|node_id| NodeOutput { node_id, output_index: 0 }).collect(),
        previous_exports: None,
    }
}

fn get(net: &NodeNetwork, id: u64) -> Option<&DocumentNode> {
    net.nodes.iter().find(|(i, _)| *i == id).map(|(_, n)| n)
}

#[test]
fn delete_with_reconnect_bridges_the_chain() {
    // export <- A <- B <- C
    let mut net = network(
        vec![
            (1, node(vec![conn(2)], 0)),
            (2, node(vec![conn(3)], 0)),
            (3, node(vec![value(1, false)], 0)),
        ],
        vec![1],
    );
    let mut selection = vec![2];
    let removed = net.delete_nodes(&registry(), &vec![2], true, &mut selection);
    assert_eq!(removed, vec![2]);
    assert!(get(&net, 2).is_none());
    assert_eq!(get(&net, 1).unwrap().inputs[0], conn(3));
    assert!(net.connected_to_output(3));
    assert!(selection.is_empty());
}

#[test]
fn delete_without_reconnect_resets_to_default() {
    let mut net = network(vec![(1, node(vec![conn(2)], 0)), (2, node(vec![], 0))], vec![1]);
    let mut selection = vec![];
    let removed = net.delete_nodes(&registry(), &vec![2], false, &mut selection);
    assert_eq!(removed, vec![2]);
    assert_eq!(get(&net, 1).unwrap().inputs[0], value(7, true));
}

#[test]
fn sole_dependent_is_pruned_and_shared_node_kept() {
    // A (export) takes D on its primary input and M on its secondary input.
    // D takes N on its secondary input; N takes M.
    let mut net = network(
        vec![
            (1, node(vec![conn(4), conn(3)], 0)),
            (2, node(vec![conn(3)], 0)),
            (3, node(vec![value(0, false)], 0)),
            (4, node(vec![conn(5), conn(2)], 0)),
            (5, node(vec![value(0, false)], 0)),
        ],
        vec![1],
    );
    let set = net.deletion_set(&vec![4], true);
    assert!(set.contains(&4));
    assert!(set.contains(&2));
    assert!(!set.contains(&3));
    let mut selection = vec![];
    let removed = net.delete_nodes(&registry(), &vec![4], true, &mut selection);
    assert!(removed.contains(&4) && removed.contains(&2));
    assert!(get(&net, 3).is_some());
    assert_eq!(get(&net, 1).unwrap().inputs[0], conn(5));
    assert_eq!(get(&net, 1).unwrap().inputs[1], conn(3));
}

#[test]
fn export_node_is_never_deleted() {
    let mut net = network(vec![(1, node(vec![], 0)), (2, node(vec![], 0))], vec![1]);
    let mut selection = vec![1, 2];
    let removed = net.delete_nodes(&registry(), &vec![1, 2], false, &mut selection);
    assert_eq!(removed, vec![2]);
    assert!(get(&net, 1).is_some());
    assert_eq!(selection, vec![1]);
    assert_eq!(net.remove_node(&registry(), 1, false, &mut selection), Err(EditError::BoundaryNode));
    assert_eq!(net.remove_node(&registry(), 9, false, &mut selection), Err(EditError::NoNode));
}

#[test]
fn preview_twice_restores_exports() {
    let mut net = network(vec![(1, node(vec![], 0)), (2, node(vec![], 0))], vec![1]);
    let original = net.exports.clone();
    assert!(net.toggle_preview(2));
    assert_eq!(net.exports[0], NodeOutput { node_id: 2, output_index: 0 });
    assert_eq!(net.previous_exports, Some(original.clone()));
    assert!(net.toggle_preview(2));
    assert_eq!(net.exports, original);
    assert_eq!(net.previous_exports, None);
    // Without a stash, toggling the output node does nothing.
    assert!(!net.toggle_preview(1));
}

#[test]
fn shift_keeps_downstream_spacing() {
    // 2 takes its input from 1; 3 takes its input from 2.
    let mut net = network(
        vec![(1, node(vec![], 0)), (2, node(vec![conn(1)], 3)), (3, node(vec![conn(2)], 5))],
        vec![3],
    );
    assert_eq!(net.shift_node(2), Ok(()));
    let x2 = get(&net, 2).unwrap().x;
    let x3 = get(&net, 3).unwrap().x;
    assert_eq!(x2, 8);
    assert!(x3 - x2 >= 8);
    assert_eq!(x3, 16);
    assert_eq!(net.shift_node(42), Err(EditError::NoNode));
}

#[test]
fn breaking_layer_shape_turns_off_layer_display() {
    let mut layer = node(vec![conn(2), value(3, true)], 0);
    layer.display_as_layer = true;
    let mut net = network(vec![(1, layer), (2, node(vec![], 0))], vec![1]);
    assert_eq!(net.expose_input(&registry(), 1, 1, false), Ok(()));
    let n = get(&net, 1).unwrap();
    assert_eq!(n.inputs[1], value(3, false));
    assert!(!n.display_as_layer);
    assert_eq!(net.set_display_as_layer(1, true), Ok(()));
    assert!(!get(&net, 1).unwrap().display_as_layer);
    assert_eq!(net.expose_input(&registry(), 1, 1, true), Ok(()));
    assert_eq!(net.set_display_as_layer(1, true), Ok(()));
    assert!(get(&net, 1).unwrap().display_as_layer);
}

#[test]
fn connection_closing_a_cycle_is_refused() {
    let mut net = network(vec![(1, node(vec![conn(2)], 0)), (2, node(vec![value(0, false)], 0))], vec![1]);
    assert_eq!(net.set_node_input(2, 0, conn(1)), Err(EditError::Cycle));
    assert_eq!(net.set_node_input(2, 0, conn(2)), Err(EditError::Cycle));
    assert_eq!(net.set_node_input(2, 0, conn(5)), Err(EditError::NoSource));
    assert_eq!(net.set_node_input(2, 4, value(1, false)), Err(EditError::NoInput));
    assert_eq!(net.set_node_input(7, 0, value(1, false)), Err(EditError::NoNode));
    assert_eq!(net.set_node_input(2, 0, value(1, false)), Ok(false));
    assert_eq!(net.set_node_input(1, 0, value(1, false)), Ok(true));
    assert_eq!(net.insert_node(3, node(vec![conn(9)], 0)), Err(EditError::NoSource));
    net.nodes[0].1.inputs.push(conn(3));
    assert_eq!(net.insert_node(3, node(vec![conn(1)], 0)), Err(EditError::IdReferenced));
    net.nodes[0].1.inputs.pop();
    assert_eq!(net.insert_node(3, node(vec![conn(2)], 0)), Ok(()));
    assert_eq!(net.insert_node(3, node(vec![], 0)), Err(EditError::DuplicateId));
}

#[test]
fn copy_paste_copy_keeps_structure() {
    let net = network(
        vec![(1, node(vec![conn(2), conn(3)], 0)), (2, node(vec![value(4, true)], 2)), (3, node(vec![], 0))],
        vec![3],
    );
    let reg = registry();
    let first = NodeGraphMessageHandler::copy_nodes(&net, &vec![(1, 10), (2, 20)], &reg);
    assert_eq!(first.len(), 2);
    assert_eq!(first[0].0, 10);
    // The connection from 3, which was not copied, becomes the default.
    assert_eq!(first[0].1.inputs, vec![conn(20), value(9, false)]);
    let paste_ids = vec![(10, 100), (20, 200)];
    let pasted: Vec<_> = first.iter().map(|(id, n)| (if *id == 10 { 100 } else { 200 }, map_ids(n, &paste_ids, &reg))).collect();
    let again_ids = vec![(100, 1000), (200, 2000)];
    let again: Vec<_> = pasted.iter().map(|(_, n)| map_ids(n, &again_ids, &reg)).collect();
    assert_eq!(again[0].inputs, vec![conn(2000), value(9, false)]);
    assert_eq!(again[1].inputs, first[1].1.inputs);
    assert_eq!(again[1].x, first[1].1.x);
}

#[test]
fn visibility_and_lock_protect_boundary() {
    let mut net = network(vec![(1, node(vec![], 0)), (2, node(vec![], 0))], vec![1]);
    net.imports = vec![2];
    assert_eq!(net.set_visibility(1, false), Err(EditError::BoundaryNode));
    assert_eq!(net.set_locked(2, true), Err(EditError::BoundaryNode));
    assert_eq!(net.set_visibility(1, true), Ok(()));
    assert_eq!(net.set_locked(2, false), Ok(()));
    net.imports = vec![];
    assert_eq!(net.set_locked(2, true), Ok(()));
    assert!(get(&net, 2).unwrap().locked);
    assert_eq!(net.set_visibility(5, true), Err(EditError::NoNode));
}

#[test]
fn disconnect_resets_exposed_input() {
    let mut net = network(vec![(1, node(vec![conn(2), conn(2)], 0)), (2, node(vec![], 0))], vec![1]);
    assert_eq!(net.disconnect_input(&registry(), 1, 1), Ok(()));
    assert_eq!(get(&net, 1).unwrap().inputs[1], value(9, true));
    assert_eq!(net.disconnect_input(&registry(), 1, 5), Err(EditError::NoInput));
}

#[test]
fn properties_follow_selection() {
    let mut layer = node(vec![conn(2), value(0, true)], 0);
    layer.is_layer = true;
    let mut other_layer = node(vec![], 0);
    other_layer.is_layer = true;
    let net = network(
        vec![(1, layer), (2, node(vec![conn(3)], 0)), (3, other_layer), (4, node(vec![], 0))],
        vec![1],
    );
    let h = NodeGraphMessageHandler { network: vec![], has_selection: true };
    assert_eq!(h.collate_properties(&net, &vec![2, 4]), vec![2, 4]);
    let mut shown = h.collate_properties(&net, &vec![1, 2]);
    shown.sort();
    assert_eq!(shown, vec![1, 2]);
    assert!(h.collate_properties(&net, &vec![1, 4]).is_empty());
    assert!(h.collate_properties(&net, &vec![1, 3]).is_empty());
}

#[test]
fn actions_depend_on_selection_and_graph() {
    let h = NodeGraphMessageHandler { network: vec![], has_selection: true };
    assert_eq!(h.actions_with_node_graph_open(true).len(), 7);
    assert_eq!(
        h.actions_with_node_graph_open(false),
        vec![NodeGraphAction::ToggleSelectedVisibility, NodeGraphAction::ToggleSelectedLocked]
    );
    let none = NodeGraphMessageHandler { network: vec![], has_selection: false };
    assert!(none.actions_with_node_graph_open(true).is_empty());
    assert_eq!(NodeGraphMessageHandler::default_node_input(&registry(), 1, 1), Some(value(9, false)));
    assert_eq!(NodeGraphMessageHandler::default_node_input(&registry(), 2, 0), None);
}
