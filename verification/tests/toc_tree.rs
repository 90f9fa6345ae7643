use wbook_core::toc::{
    BuilderOptions, NodeId, TocBuilder, TocEntry, TocError, TocEvent, TocRoot, TreeNodeMeta,
};
use wbook_core::types::TextRange;

fn range(start: u64, end: u64) -> TextRange {
    TextRange::new(start, end).unwrap()
}

fn meta() -> TreeNodeMeta {
    TreeNodeMeta {
        words: 0,
        range: Some(range(0, 0)),
    }
}

#[test]
fn test_toc_new() {
    let mut toc = TocRoot::new();
    let node = toc.add("test", range(0, 0), None).unwrap();
    assert_eq!(node.title, "test");
    assert_eq!(node.meta.range, Some(range(0, 0)));
    assert_eq!(node.parent, None);
    assert_eq!(node.children.len(), 0);
}

#[test]
fn test_toc_add() {
    let mut toc = TocRoot::new();
    let node = toc.add("test", range(0, 0), None).unwrap();
    assert_eq!(node.title, "test");
    assert_eq!(node.meta.range, Some(range(0, 0)));
    assert_eq!(node.parent, None);
    assert_eq!(node.children.len(), 0);
}

#[test]
fn test_toc_add_with_meta() {
    let mut toc = TocRoot::new();
    let node = toc.add_with_meta("test", Some(meta()), None).unwrap();
    assert_eq!(node.title, "test");
    assert_eq!(node.meta.range, Some(range(0, 0)));
    assert_eq!(node.parent, None);
    assert_eq!(node.children.len(), 0);
}

#[test]
fn test_toc_add_with_meta_defaults_to_none_range() {
    let mut toc = TocRoot::new();
    let node = toc.add_with_meta("test", None, None).unwrap();
    assert_eq!(node.meta.range, None);
}

#[test]
fn test_toc_add_with_missing_parent() {
    let mut toc = TocRoot::new();
    let result = toc.add("test", range(0, 0), Some(NodeId(42)));
    assert!(matches!(
        result,
        Err(TocError::NodeParentNotFound(NodeId(42)))
    ));
}

#[test]
fn test_toc_get() {
    let mut toc = TocRoot::new();
    let node_id = toc.add("test", range(0, 0), None).unwrap().id;
    let node = toc.get(node_id).unwrap();
    assert_eq!(node.title, "test");
    assert_eq!(node.meta.range, Some(range(0, 0)));
    assert_eq!(node.parent, None);
    assert_eq!(node.children.len(), 0);
}

#[test]
fn test_toc_add_with_meta_and_parent() {
    let mut toc = TocRoot::new();
    let node_id = toc.add_with_meta("test", Some(meta()), None).unwrap().id;
    toc.add_with_meta("test2", Some(meta()), Some(node_id)).unwrap();
    let node1 = toc.get(node_id).unwrap();
    let node2 = toc.get(node1.children[0]).unwrap();
    assert_eq!(node2.title, "test2");
    assert_eq!(node2.meta.range, Some(range(0, 0)));
    assert_eq!(node2.parent, Some(node_id));
    assert_eq!(node2.children.len(), 0);
}

#[test]
fn test_remove() {
    let mut toc = TocRoot::new();
    let node_id = toc.add_with_meta("test", Some(meta()), None).unwrap().id;
    toc.remove(node_id);
    assert!(!toc.contains(node_id));
    assert_eq!(toc.root_ids().len(), 0);
}

#[test]
fn test_move_up() {
    let mut toc = TocRoot::new();
    let node_id = toc.add_with_meta("test", Some(meta()), None).unwrap().id;
    let node_id2 = toc.add_with_meta("test2", Some(meta()), None).unwrap().id;
    toc.move_up(node_id2);
    assert_eq!(toc.root_ids()[0], node_id2);
    assert_eq!(toc.root_ids()[1], node_id);
}

#[test]
fn test_move_down() {
    let mut toc = TocRoot::new();
    let node_id = toc.add_with_meta("test", Some(meta()), None).unwrap().id;
    let node_id2 = toc.add_with_meta("test2", Some(meta()), None).unwrap().id;
    toc.move_down(node_id);
    assert_eq!(toc.root_ids()[0], node_id2);
    assert_eq!(toc.root_ids()[1], node_id);
}

#[test]
fn test_move_right() {
    let mut toc = TocRoot::new();
    let node_id = toc.add_with_meta("test", Some(meta()), None).unwrap().id;
    let node_id2 = toc
        .add_with_meta("test2", Some(meta()), Some(node_id))
        .unwrap()
        .id;
    toc.move_right(node_id2);
    let node = toc.get(node_id2).unwrap();
    assert_eq!(node.parent, None);
    assert_eq!(toc.root_ids().len(), 2);
    assert_eq!(toc.root_ids()[0], node_id);
    assert_eq!(toc.root_ids()[1], node_id2);
}

#[test]
fn test_move_left() {
    let mut toc = TocRoot::new();
    let node_id = toc.add_with_meta("test", Some(meta()), None).unwrap().id;
    let node_id2 = toc
        .add_with_meta("test2", Some(meta()), Some(node_id))
        .unwrap()
        .id;
    toc.move_left(node_id2);
    let node = toc.get(node_id2).unwrap();
    assert_eq!(node.parent, Some(node_id));
    assert_eq!(toc.root_ids().len(), 1);
    assert_eq!(toc.root_ids()[0], node_id);
    assert_eq!(toc.get(node_id).unwrap().children[0], node_id2);
}

// Move node5 before node1:
// - node1                         - node5
// - node2 - node3 - node5   =>    - node1
//         - node4                 - node2 - node3
//                                         - node4
#[test]
fn test_move_before() {
    let mut toc = TocRoot::new();
    let node_id1 = toc.add("node1", range(0, 0), None).unwrap().id;
    let node_id2 = toc.add("node2", range(0, 0), None).unwrap().id;
    let node_id3 = toc.add("node3", range(0, 0), Some(node_id2)).unwrap().id;
    let node_id4 = toc.add("node4", range(0, 0), Some(node_id2)).unwrap().id;
    let node_id5 = toc.add("node5", range(0, 0), Some(node_id3)).unwrap().id;
    toc.move_before(node_id5, node_id1);
    assert_eq!(toc.root_ids().len(), 3);
    assert_eq!(toc.root_ids()[0], node_id5);
    assert_eq!(toc.root_ids()[1], node_id1);
    assert_eq!(toc.root_ids()[2], node_id2);
    assert_eq!(toc.get(node_id5).unwrap().parent, None);
    assert_eq!(toc.get(node_id2).unwrap().children.len(), 2);
    assert_eq!(toc.get(node_id2).unwrap().children[0], node_id3);
    assert_eq!(toc.get(node_id2).unwrap().children[1], node_id4);
    assert_eq!(toc.get(node_id3).unwrap().children.len(), 0);
}

// Move node5 after node2:
// - node1                         - node1
// - node2 - node3 - node5   =>    - node2 - node3
//         - node4                         - node4
//                                 - node5
#[test]
fn test_move_after() {
    let mut toc = TocRoot::new();
    let node_id1 = toc.add("node1", range(0, 0), None).unwrap().id;
    let node_id2 = toc.add("node2", range(0, 0), None).unwrap().id;
    let node_id3 = toc.add("node3", range(0, 0), Some(node_id2)).unwrap().id;
    let node_id4 = toc.add("node4", range(0, 0), Some(node_id2)).unwrap().id;
    let node_id5 = toc.add("node5", range(0, 0), Some(node_id3)).unwrap().id;
    toc.move_after(node_id5, node_id2);
    assert_eq!(toc.root_ids().len(), 3);
    assert_eq!(toc.root_ids()[0], node_id1);
    assert_eq!(toc.root_ids()[1], node_id2);
    assert_eq!(toc.root_ids()[2], node_id5);
    assert_eq!(toc.get(node_id5).unwrap().parent, None);
    assert_eq!(toc.get(node_id2).unwrap().children.len(), 2);
    assert_eq!(toc.get(node_id2).unwrap().children[0], node_id3);
    assert_eq!(toc.get(node_id2).unwrap().children[1], node_id4);
    assert_eq!(toc.get(node_id3).unwrap().children.len(), 0);
}

// Move node2 below node1:
// - node1                         - node1 - node2 - node3 - node5
// - node2 - node3 - node5   =>                    - node4
//         - node4
#[test]
fn test_move_belong_to() {
    let mut toc = TocRoot::new();
    let node_id1 = toc.add("node1", range(0, 0), None).unwrap().id;
    let node_id2 = toc.add("node2", range(0, 0), None).unwrap().id;
    let node_id3 = toc.add("node3", range(0, 0), Some(node_id2)).unwrap().id;
    let node_id4 = toc.add("node4", range(0, 0), Some(node_id2)).unwrap().id;
    let node_id5 = toc.add("node5", range(0, 0), Some(node_id3)).unwrap().id;
    toc.move_belong_to(node_id2, node_id1);
    assert_eq!(toc.root_ids().len(), 1);
    assert_eq!(toc.root_ids()[0], node_id1);
    assert_eq!(toc.get(node_id1).unwrap().children.len(), 1);
    assert_eq!(toc.get(node_id1).unwrap().children[0], node_id2);
    assert_eq!(toc.get(node_id2).unwrap().children.len(), 2);
    assert_eq!(toc.get(node_id2).unwrap().children[0], node_id3);
    assert_eq!(toc.get(node_id2).unwrap().children[1], node_id4);
    assert_eq!(toc.get(node_id2).unwrap().parent, Some(node_id1));
    assert_eq!(toc.get(node_id5).unwrap().parent, Some(node_id3));
}

#[test]
fn test_get_mut() {
    let mut toc = TocRoot::new();
    let node_id = toc.add("test", range(0, 0), None).unwrap().id;
    let node = toc.get_mut(node_id).unwrap();
    node.title = "test2".to_string();
    assert_eq!(node.title, "test2");
}

#[test]
fn test_get_root() {
    let mut toc = TocRoot::new();
    let node_id = toc.add("test", range(0, 0), None).unwrap().id;
    let root = toc.get_root();
    assert_eq!(root.root_ids()[0], node_id);
}

#[test]
fn test_contains() {
    let mut toc = TocRoot::new();
    let node_id = toc.add("test", range(0, 0), None).unwrap().id;
    assert!(toc.contains(node_id));
}

#[test]
fn test_level() {
    let mut toc = TocRoot::new();
    let node_id1 = toc.add("node1", range(0, 0), None).unwrap().id;
    let node_id2 = toc.add("node2", range(0, 0), Some(node_id1)).unwrap().id;
    let node_id3 = toc.add("node3", range(0, 0), Some(node_id2)).unwrap().id;
    assert_eq!(toc.level(node_id1), Some(1));
    assert_eq!(toc.level(node_id2), Some(2));
    assert_eq!(toc.level(node_id3), Some(3));
    assert_eq!(toc.level(NodeId(999)), None);
}

#[test]
fn test_snapshot_roundtrip() {
    let mut toc = TocRoot::new();
    let node_id1 = toc.add("node1", range(0, 5), None).unwrap().id;
    let node_id2 = toc.add("node2", range(5, 10), Some(node_id1)).unwrap().id;
    toc.add("node3", range(10, 15), Some(node_id2)).unwrap();
    toc.add("node4", range(15, 20), None).unwrap();

    // Roundtrip through the snapshot wire format.
    let restored = TocRoot::try_from(toc.snapshot()).unwrap();

    // Tree equality via snapshots, and parent links rebuilt.
    assert_eq!(restored.snapshot(), toc.snapshot());
    assert_eq!(restored.get(node_id2).unwrap().parent, Some(node_id1));
    assert_eq!(restored.level(node_id2), Some(2));
}

#[test]
fn test_snapshot_roundtrip_preserves_patch() {
    let mut toc = TocRoot::new();
    let node_id = toc.add("node1", range(0, 5), None).unwrap().id;
    toc.get_mut(node_id).unwrap().patch = Some("@@ patch".to_string());

    let snapshot = toc.snapshot();
    let restored = TocRoot::try_from(snapshot).unwrap();
    assert_eq!(
        restored.get(node_id).unwrap().patch,
        Some("@@ patch".to_string())
    );
}

#[test]
fn test_try_from_snapshot_rejects_duplicate_ids() {
    let entry = |id| TocEntry {
        id,
        title: "x".to_string(),
        patch: None,
        meta: TreeNodeMeta {
            words: 0,
            range: None,
        },
        children: vec![],
    };
    let snapshot = vec![entry(NodeId(0)), entry(NodeId(0))];
    assert!(matches!(
        TocRoot::try_from(snapshot),
        Err(TocError::InvalidSnapshot(_))
    ));
}

#[test]
fn test_try_from_snapshot_rejects_inverted_range() {
    let snapshot = vec![TocEntry {
        id: NodeId(0),
        title: "x".to_string(),
        patch: None,
        meta: TreeNodeMeta {
            words: 0,
            range: Some(TextRange { start: 10, end: 5 }),
        },
        children: vec![],
    }];
    assert!(matches!(
        TocRoot::try_from(snapshot),
        Err(TocError::InvalidSnapshot(_))
    ));
}

#[test]
fn test_builder_simple_stream() {
    let mut builder = TocBuilder::new();
    let a = builder
        .push(TocEvent {
            level: 1,
            title: "a".to_string(),
            range: Some(range(0, 10)),
        })
        .unwrap();
    let b = builder
        .push(TocEvent {
            level: 2,
            title: "b".to_string(),
            range: Some(range(0, 5)),
        })
        .unwrap();
    let root = builder.build();
    assert_eq!(root.root_ids(), &vec![a]);
    assert_eq!(root.get(a).unwrap().children, vec![b]);
    assert_eq!(root.get(b).unwrap().parent, Some(a));
    assert_eq!(root.level(b), Some(2));
}

#[test]
fn test_builder_level_jump_creates_containers() {
    let mut builder = TocBuilder::new();
    let leaf = builder
        .push(TocEvent {
            level: 3,
            title: "c1".to_string(),
            range: Some(range(0, 10)),
        })
        .unwrap();
    let root = builder.build();

    // Two anonymous container nodes are auto-created for levels 1 and 2.
    let l1 = root.root_ids()[0];
    let l2 = root.get(l1).unwrap().children[0];
    assert_eq!(root.get(l1).unwrap().title, "");
    assert_eq!(root.get(l2).unwrap().title, "");
    assert_eq!(root.get(l2).unwrap().children, vec![leaf]);
    assert_eq!(root.level(leaf), Some(3));
    // Container ranges are backfilled from the leaf by default.
    assert_eq!(root.get(l1).unwrap().meta.range, Some(range(0, 10)));
    assert_eq!(root.get(l2).unwrap().meta.range, Some(range(0, 10)));
}

#[test]
fn test_builder_level_fallback_pops_stack() {
    let mut builder = TocBuilder::new();
    let a = builder
        .push(TocEvent {
            level: 1,
            title: "a".to_string(),
            range: None,
        })
        .unwrap();
    let b = builder
        .push(TocEvent {
            level: 2,
            title: "b".to_string(),
            range: None,
        })
        .unwrap();
    let c = builder
        .push(TocEvent {
            level: 1,
            title: "c".to_string(),
            range: None,
        })
        .unwrap();
    let root = builder.build();
    assert_eq!(root.root_ids(), &vec![a, c]);
    assert_eq!(root.get(a).unwrap().children, vec![b]);
    assert_eq!(root.get(c).unwrap().parent, None);
    assert_eq!(root.level(c), Some(1));
}

#[test]
fn test_builder_backfills_container_range() {
    let mut builder = TocBuilder::new();
    builder
        .push(TocEvent {
            level: 1,
            title: "part".to_string(),
            range: None,
        })
        .unwrap();
    builder
        .push(TocEvent {
            level: 2,
            title: "c1".to_string(),
            range: Some(range(0, 10)),
        })
        .unwrap();
    builder
        .push(TocEvent {
            level: 2,
            title: "c2".to_string(),
            range: Some(range(10, 25)),
        })
        .unwrap();
    let root = builder.build();
    let part = root.root_ids()[0];
    assert_eq!(root.get(part).unwrap().meta.range, Some(range(0, 25)));
}

#[test]
fn test_builder_backfill_can_be_disabled() {
    let mut builder = TocBuilder::with_options(BuilderOptions {
        backfill_container_range: false,
    });
    builder
        .push(TocEvent {
            level: 1,
            title: "part".to_string(),
            range: None,
        })
        .unwrap();
    builder
        .push(TocEvent {
            level: 2,
            title: "c1".to_string(),
            range: Some(range(0, 10)),
        })
        .unwrap();
    let root = builder.build();
    let part = root.root_ids()[0];
    assert_eq!(root.get(part).unwrap().meta.range, None);
}

#[test]
fn move_up_then_down_restores_children_order() {
    let mut toc = TocRoot::new();
    let parent = toc.add_with_meta("vol", Some(meta()), None).unwrap().id;
    let a = toc.add_with_meta("a", Some(meta()), Some(parent)).unwrap().id;
    let b = toc.add_with_meta("b", Some(meta()), Some(parent)).unwrap().id;
    let c = toc.add_with_meta("c", Some(meta()), Some(parent)).unwrap().id;
    toc.move_up(c);
    assert_eq!(toc.get(parent).unwrap().children, vec![a, c, b]);
    toc.move_down(c);
    assert_eq!(toc.get(parent).unwrap().children, vec![a, b, c]);
    toc.move_down(a);
    assert_eq!(toc.get(parent).unwrap().children, vec![b, a, c]);
    toc.move_up(a);
    assert_eq!(toc.get(parent).unwrap().children, vec![a, b, c]);
}

#[test]
fn restored_snapshot_keeps_titles_metas_and_shape() {
    let mut toc = TocRoot::new();
    let v = toc.add("vol", range(0, 10), None).unwrap().id;
    toc.add("ch1", range(0, 4), Some(v)).unwrap();
    let ch2 = toc.add("ch2", range(4, 10), Some(v)).unwrap().id;
    toc.add("sec", range(5, 6), Some(ch2)).unwrap();
    let gone = toc.add("gone", range(10, 10), None).unwrap().id;
    toc.remove(gone);
    toc.add("tail", range(10, 12), None).unwrap();
    let restored = TocRoot::try_from(toc.snapshot()).unwrap();
    fn shape(es: &[TocEntry]) -> Vec<(String, Option<TextRange>, usize)> {
        let mut out = Vec::new();
        for e in es {
            out.push((e.title.clone(), e.meta.range, e.children.len()));
            out.extend(shape(&e.children));
        }
        out
    }
    assert_eq!(shape(&restored.snapshot()), shape(&toc.snapshot()));
}

#[test]
fn restored_ids_run_in_preorder_from_zero() {
    let mut toc = TocRoot::new();
    let gone = toc.add("gone", range(0, 0), None).unwrap().id;
    let v = toc.add("vol", range(0, 10), None).unwrap().id;
    toc.remove(gone);
    let ch = toc.add("ch", range(0, 4), Some(v)).unwrap().id;
    toc.add("sec", range(1, 2), Some(ch)).unwrap();
    toc.add("tail", range(10, 12), None).unwrap();
    let restored = TocRoot::try_from(toc.snapshot()).unwrap();
    fn ids(es: &[TocEntry], out: &mut Vec<usize>) {
        for e in es {
            out.push(e.id.0);
            ids(&e.children, out);
        }
    }
    let mut got = Vec::new();
    ids(&restored.snapshot(), &mut got);
    assert_eq!(got, vec![0, 1, 2, 3]);
    let again = TocRoot::try_from(restored.snapshot()).unwrap();
    assert_eq!(again.snapshot(), restored.snapshot());
}

#[test]
fn move_left_makes_the_node_the_first_child_of_its_previous_sibling() {
    let mut toc = TocRoot::new();
    let n1 = toc.add_with_meta("n1", Some(meta()), None).unwrap().id;
    let c = toc.add_with_meta("c", Some(meta()), Some(n1)).unwrap().id;
    let n2 = toc.add_with_meta("n2", Some(meta()), None).unwrap().id;
    let d = toc.add_with_meta("d", Some(meta()), Some(n2)).unwrap().id;
    toc.move_left(n2);
    assert_eq!(toc.root_ids().clone(), vec![n1]);
    assert_eq!(toc.get(n1).unwrap().children, vec![n2, c]);
    assert_eq!(toc.get(n2).unwrap().parent, Some(n1));
    assert_eq!(toc.get(n2).unwrap().children, vec![d]);
    assert_eq!(toc.level(d), Some(3));
}

#[test]
fn remove_takes_the_whole_subtree() {
    let mut toc = TocRoot::new();
    let a = toc.add("a", range(0, 1), None).unwrap().id;
    let v = toc.add("v", range(1, 9), None).unwrap().id;
    let c1 = toc.add("c1", range(1, 4), Some(v)).unwrap().id;
    let s1 = toc.add("s1", range(2, 3), Some(c1)).unwrap().id;
    let c2 = toc.add("c2", range(4, 9), Some(v)).unwrap().id;
    let z = toc.add("z", range(9, 10), None).unwrap().id;
    toc.remove(v);
    for gone in [v, c1, s1, c2] {
        assert!(!toc.contains(gone));
    }
    assert_eq!(toc.root_ids().clone(), vec![a, z]);
    assert!(toc.contains(a) && toc.contains(z));
    toc.remove(v);
    assert_eq!(toc.root_ids().clone(), vec![a, z]);
}
