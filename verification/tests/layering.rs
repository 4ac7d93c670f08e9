use layer_workspace::layer::{Layer, LayerConfig, LayerTree, Molecule, RootMismatchError};
use layer_workspace::utils::InsertResult;
use layer_workspace::workspace::{Workspace, WorkspaceError};
use std::sync::Arc;

#[test]
fn overlay_then_patch() {
    let mut ws = Workspace::new();
    let c1 = LayerConfig { source: 0, value: 5 };
    assert!(ws.overlay_to(0, c1).is_ok());
    let top = ws.top_layer(0).unwrap();
    assert_eq!(top.composition().slots(), &vec![0u64, 5u64]);
    assert_eq!(top.config(), Some(c1));
    let parent = top.parent_layer().unwrap();
    assert!(parent.config().is_none());
    assert_eq!(parent.composition().slots(), &vec![0u64]);

    assert!(ws.write_to_layer(0, Molecule { slot: 1, value: 9 }).is_ok());
    let top2 = ws.top_layer(0).unwrap();
    assert_eq!(top2.composition().slots(), &vec![0u64, 9u64]);
    assert_eq!(top2.config(), Some(c1));
    assert_eq!(
        top2.parent_layer().unwrap().composition().slots(),
        &vec![0u64]
    );
}

#[test]
fn copy_on_write_isolation() {
    let mut ws = Workspace::new();
    assert!(ws.overlay_to(0, LayerConfig { source: 0, value: 5 }).is_ok());
    let before = ws.top_layer(0).unwrap();
    assert!(ws.write_to_layer(0, Molecule { slot: 0, value: 42 }).is_ok());
    assert_eq!(before.composition().slots(), &vec![0u64, 5u64]);
    let after = ws.top_layer(0).unwrap();
    assert_eq!(after.composition().slots(), &vec![42u64, 5u64]);
}

#[test]
fn export_two_stacks() {
    let mut ws = Workspace::new();
    ws.new_empty_stack();
    let (tree, ids, classes) = ws.export_workspace().unwrap();
    assert_eq!(tree.root_composition().slots(), &vec![0u64]);
    assert!(tree.chain_list().iter().all(|c| c.is_empty()));
    assert!(ids.is_empty());
    assert!(classes.is_empty());

    assert!(ws.overlay_to(0, LayerConfig { source: 0, value: 1 }).is_ok());
    assert!(ws.overlay_to(1, LayerConfig { source: 0, value: 2 }).is_ok());
    let (tree, _, _) = ws.export_workspace().unwrap();
    let chains = tree.chain_list();
    assert_eq!(chains.len(), 2);
    assert_eq!(chains[0], vec![LayerConfig { source: 0, value: 1 }]);
    assert_eq!(chains[1], vec![LayerConfig { source: 0, value: 2 }]);
}

#[test]
fn export_root_mismatch() {
    let mut ws = Workspace::new();
    ws.new_empty_stack();
    assert!(ws.write_to_layer(1, Molecule { slot: 0, value: 7 }).is_ok());
    assert!(ws.export_workspace().is_err());
}

#[test]
fn merge_root_consistency() {
    let base = Layer::default();
    let mut tree = LayerTree::from(&base);

    let other_root = base.write(&Molecule { slot: 0, value: 7 }).unwrap();
    assert_eq!(
        tree.merge(other_root.get_config_stack()),
        Err(RootMismatchError)
    );
    assert_eq!(tree.root_composition().slots(), &vec![0u64]);
    assert_eq!(tree.chain_list().len(), 1);

    let child = Layer::overlay(
        Some(Arc::new(Layer::default())),
        LayerConfig { source: 0, value: 3 },
    )
    .unwrap();
    assert_eq!(tree.merge(child.get_config_stack()), Ok(()));
    assert_eq!(tree.chain_list().len(), 2);
    assert_eq!(
        tree.chain_list()[1],
        vec![LayerConfig { source: 0, value: 3 }]
    );
}

#[test]
fn stack_errors() {
    let mut ws = Workspace::new();
    assert_eq!(
        ws.overlay_to(7, LayerConfig { source: 0, value: 1 }),
        Err(WorkspaceError::IndexNotFound)
    );
    assert_eq!(ws.top_layer(0).unwrap().composition().slots(), &vec![0u64]);
    assert!(ws.top_layer(1).is_none());
    assert!(matches!(
        ws.overlay_to(0, LayerConfig { source: 3, value: 1 }),
        Err(WorkspaceError::Derivation(_))
    ));
    assert!(matches!(
        ws.write_to_layer(0, Molecule { slot: 3, value: 1 }),
        Err(WorkspaceError::Patch(_))
    ));
    assert_eq!(
        ws.write_to_layer(9, Molecule { slot: 0, value: 1 }),
        Err(WorkspaceError::IndexNotFound)
    );
}

#[test]
fn workspace_ids_and_tags() {
    let mut ws = Workspace::new();
    ws.new_empty_stack();
    assert!(matches!(
        ws.set_id(0, "alpha".to_string()),
        InsertResult::Created
    ));
    assert!(matches!(
        ws.set_id(1, "alpha".to_string()),
        InsertResult::Duplicated(0)
    ));
    assert!(matches!(
        ws.set_id(0, "beta".to_string()),
        InsertResult::Updated(_)
    ));
    assert_eq!(ws.remove_id(0), Some("beta".to_string()));
    assert_eq!(ws.remove_id(0), None);

    assert!(ws.set_to_group(5, "red".to_string()));
    assert!(ws.set_to_group(5, "blue".to_string()));
    assert!(ws.set_to_group(2, "red".to_string()));
    assert!(!ws.set_to_group(2, "red".to_string()));
    ws.remove_from_all_group(5);
    let (_, ids, classes) = ws.export_workspace().unwrap();
    assert!(ids.is_empty());
    assert_eq!(classes, vec![(2usize, "red".to_string())]);
}

#[test]
fn untag_single_pair() {
    let mut ws = Workspace::new();
    assert!(ws.set_to_group(4, "red".to_string()));
    assert!(ws.remove_from_group(4, &"red".to_string()));
    assert!(!ws.remove_from_group(4, &"red".to_string()));
    ws.remove_group(&"red".to_string());
    let (_, _, classes) = ws.export_workspace().unwrap();
    assert!(classes.is_empty());
}
