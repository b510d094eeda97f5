use node_graph::graph::{DocumentNode, EditError, NodeInput, NodeNetwork, NodeOutput};
use node_graph::handler::{FrontendNodeLink, LayerClassification, LayerRecord, NodeGraphMessageHandler, PreviewButton};
use node_graph::registry::{NodeType, NodeTypeRegistry};

fn conn(node_id: u64) -> NodeInput {
    NodeInput::Node { node_id, output_index: 0, lambda: false }
}

fn plain(inputs: Vec<NodeInput>, x: i32, y: i32) -> DocumentNode {
    DocumentNode {
        type_id: 1,
        inputs,
        is_layer: false,
        display_as_layer: false,
        has_primary_output: true,
        visible: true,
        locked: false,
        x,
        y,
    }
}

fn reg() -> NodeTypeRegistry {
    NodeTypeRegistry {
        types: vec![NodeType {
            type_id: 1,
            inputs: vec![NodeInput::Value { data: 5, exposed: false }, NodeInput::Value { data: 6, exposed: false }],
        }],
    }
}

fn net(nodes: Vec<(u64, DocumentNode)>, export: u64) -> NodeNetwork {
    NodeNetwork {
        nodes,
        imports: vec![],
        exports: vec![NodeOutput { node_id: export, output_index: 0 }],
        previous_exports: None,
    }
}

#[test]
fn paste_shifts_until_free_and_remaps() {
    let mut n = net(vec![(1, plain(vec![], 0, 0)), (2, plain(vec![], 2, 2))], 1);
    let pasted = vec![(10, plain(vec![], 0, 0)), (11, plain(vec![conn(10), conn(99)], 4, 0))];
    assert_eq!(n.paste_offset(&pasted), 4);
    let mut sel = vec![1];
    assert_eq!(n.paste_nodes(&reg(), &pasted, &vec![20, 21], &mut sel), Ok(()));
    assert_eq!(n.nodes.len(), 4);
    assert_eq!(n.nodes[2].0, 20);
    assert_eq!(sel, vec![20, 21]);
    assert_eq!((n.nodes[2].1.x, n.nodes[2].1.y), (4, 4));
    assert_eq!(n.nodes[3].1.inputs, vec![conn(20), NodeInput::Value { data: 6, exposed: false }]);
    assert_eq!(n.paste_nodes(&reg(), &pasted, &vec![30], &mut sel), Err(EditError::MalformedPayload));
    assert_eq!(n.paste_nodes(&reg(), &pasted, &vec![1, 31], &mut sel), Err(EditError::DuplicateId));
    assert_eq!(n.paste_nodes(&reg(), &pasted, &vec![32, 32], &mut sel), Err(EditError::DuplicateId));
    assert_eq!(n.nodes.len(), 4);
}

#[test]
fn links_count_exposed_inputs() {
    let n = net(
        vec![
            (1, plain(vec![NodeInput::Value { data: 0, exposed: false }, conn(2)], 0, 0)),
            (2, plain(vec![NodeInput::Value { data: 0, exposed: true }, conn(3)], 0, 0)),
            (3, plain(vec![], 0, 0)),
        ],
        1,
    );
    let links = NodeGraphMessageHandler::collect_links(&n);
    assert_eq!(
        links,
        vec![
            FrontendNodeLink { link_start: 2, link_start_output_index: 0, link_end: 1, link_end_input_index: 0 },
            FrontendNodeLink { link_start: 3, link_start_output_index: 0, link_end: 2, link_end_input_index: 1 },
        ]
    );
}

#[test]
fn selection_buttons_follow_selection() {
    let mut n = net(vec![(1, plain(vec![], 0, 0)), (2, plain(vec![], 0, 0))], 1);
    n.nodes[1].1.visible = false;
    let b = NodeGraphMessageHandler::selection_buttons(&n, &vec![2]);
    assert!(b.visibility);
    assert!(!b.all_visible);
    assert_eq!(b.preview, PreviewButton::Preview);
    let b = NodeGraphMessageHandler::selection_buttons(&n, &vec![1]);
    assert!(!b.visibility);
    assert_eq!(b.preview, PreviewButton::Hidden);
    assert!(n.toggle_preview(2));
    let b = NodeGraphMessageHandler::selection_buttons(&n, &vec![2]);
    assert_eq!(b.preview, PreviewButton::EndPreview);
    assert_eq!(NodeGraphMessageHandler::selection_buttons(&n, &vec![1, 2]).preview, PreviewButton::Hidden);
}

#[test]
fn move_and_toggle_selected() {
    let mut n = net(vec![(1, plain(vec![], 0, 0)), (2, plain(vec![conn(1), NodeInput::Value { data: 0, exposed: true }], 1, 1))], 2);
    n.move_selected_nodes(&vec![2], 3, -4);
    assert_eq!((n.nodes[1].1.x, n.nodes[1].1.y), (4, -3));
    assert_eq!((n.nodes[0].1.x, n.nodes[0].1.y), (0, 0));
    NodeGraphMessageHandler::toggle_selected_layers(&mut n, &vec![1, 2]);
    assert!(!n.nodes[0].1.display_as_layer);
    assert!(n.nodes[1].1.display_as_layer);
    NodeGraphMessageHandler::toggle_selected_layers(&mut n, &vec![2]);
    assert!(!n.nodes[1].1.display_as_layer);
}

#[test]
fn connect_and_nested_path() {
    let mut n = net(vec![(1, plain(vec![NodeInput::Value { data: 0, exposed: false }, NodeInput::Value { data: 0, exposed: true }], 0, 0)), (2, plain(vec![], 0, 0))], 1);
    assert_eq!(n.connect_nodes_by_link(2, 0, 1, 0), Ok(true));
    assert_eq!(n.nodes[0].1.inputs[1], conn(2));
    assert_eq!(n.connect_nodes_by_link(2, 0, 1, 3), Err(EditError::NoInput));
    assert_eq!(n.connect_nodes_by_link(1, 0, 2, 0), Err(EditError::NoInput));
    assert!(n.connected_to_output(2));
    assert!(n.has_unique_ids());
    let mut h = NodeGraphMessageHandler { network: vec![], has_selection: false };
    h.enter_nested_network(5);
    h.enter_nested_network(6);
    h.exit_nested_network(1);
    assert_eq!(h.network, vec![5]);
    h.exit_nested_network(4);
    assert!(h.network.is_empty());
}

#[test]
fn layer_panel_inherits_visibility_and_lock() {
    let mut n = net(vec![(1, plain(vec![], 0, 0)), (2, plain(vec![], 0, 0)), (3, plain(vec![], 0, 0))], 1);
    n.nodes[1].1.visible = false;
    n.nodes[0].1.locked = true;
    let e = NodeGraphMessageHandler::layer_panel_entry(&n, 3, &vec![3, 2, 1], LayerClassification::Layer, true, false).unwrap();
    assert_eq!(e.depth, 2);
    assert_eq!(e.parent_id, Some(2));
    assert!(e.visible && !e.parents_visible);
    assert!(e.unlocked && !e.parents_unlocked);
    assert!(e.expanded);
    let top = NodeGraphMessageHandler::layer_panel_entry(&n, 2, &vec![2], LayerClassification::Folder, false, true).unwrap();
    assert!(top.parents_visible && top.parents_unlocked && !top.visible);
    assert_eq!(top.parent_id, None);
    assert!(NodeGraphMessageHandler::layer_panel_entry(&n, 9, &vec![9], LayerClassification::Artboard, false, false).is_none());
    let d = NodeGraphMessageHandler::default();
    assert!(d.network.is_empty() && !d.has_selection);
}

#[test]
fn qualified_input_value_pads_inputs() {
    let mut n = net(vec![(1, plain(vec![NodeInput::Value { data: 1, exposed: true }], 0, 0))], 1);
    assert_eq!(n.set_qualified_input_value(1, 3, 42), Ok(()));
    assert_eq!(
        n.nodes[0].1.inputs,
        vec![NodeInput::Value { data: 1, exposed: true }, NodeInput::Network, NodeInput::Network, NodeInput::Value { data: 42, exposed: false }]
    );
    assert_eq!(n.set_qualified_input_value(1, 0, 7), Ok(()));
    assert_eq!(n.nodes[0].1.inputs[0], NodeInput::Value { data: 7, exposed: false });
    assert_eq!(n.set_qualified_input_value(2, 0, 7), Err(EditError::NoNode));
}

#[test]
fn duplicate_moves_copies_by_two() {
    let mut n = net(vec![(1, plain(vec![], 0, 0)), (2, plain(vec![conn(1)], 3, 4)), (3, plain(vec![conn(2)], 0, 0))], 3);
    let mut sel = vec![1, 2, 3];
    let ids = n.duplicate_nodes(&reg(), &vec![(1, 10), (2, 20), (3, 30)], &mut sel).unwrap();
    assert_eq!(ids, vec![10, 20]);
    assert_eq!(sel, vec![10, 20]);
    assert_eq!(n.nodes.len(), 5);
    assert_eq!(n.nodes[4].0, 20);
    assert_eq!((n.nodes[4].1.x, n.nodes[4].1.y), (5, 6));
    assert_eq!(n.nodes[4].1.inputs, vec![conn(10)]);
    assert_eq!(n.duplicate_nodes(&reg(), &vec![(1, 2)], &mut sel), Err(EditError::DuplicateId));
    let mut far = net(vec![(1, plain(vec![], i32::MAX - 1, 0))], 9);
    assert_eq!(far.duplicate_nodes(&reg(), &vec![(1, 5)], &mut sel), Err(EditError::PositionOutOfRange));
    assert_eq!(n.nodes.len(), 5);
}

#[test]
fn selection_visibility_and_lock_toggle() {
    let mut n = net(vec![(1, plain(vec![], 0, 0)), (2, plain(vec![], 0, 0)), (3, plain(vec![], 0, 0))], 1);
    n.nodes[2].1.visible = false;
    assert!(NodeGraphMessageHandler::toggle_selected_visibility(&mut n, &vec![2, 3]));
    assert!(n.nodes[1].1.visible && n.nodes[2].1.visible);
    assert!(!NodeGraphMessageHandler::toggle_selected_visibility(&mut n, &vec![1, 2]));
    assert!(n.nodes[0].1.visible);
    assert!(!n.nodes[1].1.visible);
    assert!(NodeGraphMessageHandler::toggle_selected_locked(&mut n, &vec![1, 3]));
    assert!(!n.nodes[0].1.locked && n.nodes[2].1.locked);
    assert!(!NodeGraphMessageHandler::toggle_selected_locked(&mut n, &vec![3]));
    assert!(!n.nodes[2].1.locked);
}

#[test]
fn acyclicity_query() {
    let n = net(vec![(1, plain(vec![conn(2)], 0, 0)), (2, plain(vec![conn(3)], 0, 0)), (3, plain(vec![], 0, 0))], 1);
    assert!(n.is_acyclic());
    let cyclic = net(vec![(1, plain(vec![conn(2)], 0, 0)), (2, plain(vec![conn(1)], 0, 0))], 1);
    assert!(!cyclic.is_acyclic());
    let self_loop = net(vec![(1, plain(vec![conn(1)], 0, 0))], 1);
    assert!(!self_loop.is_acyclic());
}

#[test]
fn deleting_selection_reports_rerun() {
    let n = net(vec![(1, plain(vec![conn(2)], 0, 0)), (2, plain(vec![conn(3)], 0, 0)), (3, plain(vec![], 0, 0))], 1);
    let mut data = node_graph::handler::NodeGraphHandlerData { document_network: n, selected_nodes: vec![2, 3], graph_view_overlay_open: true };
    let mut h = NodeGraphMessageHandler::default();
    let run = h.delete_selected_nodes(&mut data, &reg(), true);
    assert!(!run);
    assert!(data.selected_nodes.is_empty());
    assert!(!h.has_selection);
    assert_eq!(data.document_network.nodes.len(), 1);
    assert_eq!(data.document_network.nodes[0].1.inputs, vec![NodeInput::Value { data: 5, exposed: true }]);
}

#[test]
fn upstream_flow_primary_or_all() {
    // 1 takes 2 on its primary input and 3 on its secondary input; 3 takes 4.
    let n = net(
        vec![
            (1, plain(vec![conn(2), conn(3)], 0, 0)),
            (2, plain(vec![], 0, 0)),
            (3, plain(vec![conn(4)], 0, 0)),
            (4, plain(vec![], 0, 0)),
        ],
        1,
    );
    assert_eq!(n.upstream_flow(&vec![0], true), vec![true, true, false, false]);
    assert_eq!(n.upstream_flow(&vec![0], false), vec![true, true, true, true]);
    assert_eq!(n.upstream_flow(&vec![2], false), vec![false, false, true, true]);
}

#[test]
fn copy_leaves_export_nodes_out_of_the_remap() {
    let n = net(vec![(1, plain(vec![conn(2)], 0, 0)), (2, plain(vec![], 0, 0))], 2);
    let copied = NodeGraphMessageHandler::copy_nodes(&n, &vec![(1, 10), (2, 20)], &reg());
    assert_eq!(copied.len(), 1);
    assert_eq!(copied[0].0, 10);
    assert_eq!(copied[0].1.inputs, vec![NodeInput::Value { data: 5, exposed: false }]);
}

#[test]
fn removal_bridges_without_a_value_default_and_keeps_selection_order() {
    // Node type 7 is unknown to the registry.
    let mut a = plain(vec![conn(2), NodeInput::Node { node_id: 2, output_index: 1, lambda: false }], 0, 0);
    a.type_id = 7;
    let mut n = net(vec![(1, a), (2, plain(vec![conn(3)], 0, 0)), (3, plain(vec![], 0, 0))], 1);
    let mut sel = vec![3, 2, 1];
    assert_eq!(n.remove_node(&reg(), 2, true, &mut sel), Ok(()));
    assert_eq!(n.nodes[0].1.inputs, vec![conn(3), NodeInput::Network]);
    assert_eq!(sel, vec![3, 1]);
}

#[test]
fn paste_refuses_positions_past_the_grid() {
    let mut n = net(vec![(1, plain(vec![], 0, 0))], 1);
    let pasted = vec![(10, plain(vec![], i32::MAX, 5)), (11, plain(vec![], 0, 0))];
    let mut sel = vec![];
    assert_eq!(n.paste_nodes(&reg(), &pasted, &vec![20, 21], &mut sel), Err(EditError::PositionOutOfRange));
    assert_eq!(n.nodes.len(), 1);
}

#[test]
fn shift_moves_left_downstream_node_and_connect_errors() {
    let mut n = net(vec![(1, plain(vec![], 10, 0)), (2, plain(vec![conn(1)], 2, 0))], 2);
    assert_eq!(n.shift_node(1), Ok(()));
    assert_eq!(n.nodes[1].1.x, 18);
    let mut m = net(vec![(1, plain(vec![NodeInput::Value { data: 0, exposed: true }], 0, 0)), (2, plain(vec![conn(1)], 0, 0))], 2);
    assert_eq!(m.connect_nodes_by_link(9, 0, 1, 0), Err(EditError::NoSource));
    assert_eq!(m.connect_nodes_by_link(2, 0, 1, 0), Err(EditError::Cycle));
}

#[test]
fn layer_panel_rows_for_layer_nodes() {
    let mut n = net(vec![(1, plain(vec![], 0, 0)), (2, plain(vec![], 0, 0)), (3, plain(vec![], 0, 0))], 1);
    n.nodes[0].1.is_layer = true;
    n.nodes[2].1.is_layer = true;
    n.nodes[0].1.visible = false;
    let records = vec![
        LayerRecord { id: 1, ancestors: vec![1], layer_classification: LayerClassification::Folder, has_children: true, collapsed: false },
        LayerRecord { id: 2, ancestors: vec![2], layer_classification: LayerClassification::Layer, has_children: false, collapsed: false },
        LayerRecord { id: 3, ancestors: vec![3, 1], layer_classification: LayerClassification::Layer, has_children: false, collapsed: false },
    ];
    let rows = NodeGraphMessageHandler::layer_panel_entries(&n, &records);
    assert_eq!(rows.len(), 2);
    assert_eq!(rows[0].id, 1);
    assert!(rows[0].expanded);
    assert_eq!(rows[1].id, 3);
    assert_eq!(rows[1].parent_id, Some(1));
    assert!(!rows[1].parents_visible);
}
