use word_index::directory::aggregate;
use word_index::directory::build_index;
use word_index::directory::index_directory;
use word_index::directory::index_file;
use word_index::directory::may_descend;
use word_index::directory::runs_sequential;
use word_index::directory::worker_count;
use word_index::directory::FileOutcome;
use word_index::errors::IoErrKind;
use word_index::errors::IoErrorCollector;
use word_index::fs_model::FsEntry;
use word_index::fs_model::FsNode;
use word_index::tokenize::index_string;
use word_index::traverse::get_all_filenames;
use word_index::traverse::FileWork;

fn b(s: &str) -> Vec<u8> {
    s.as_bytes().to_vec()
}

fn two_file_tree() -> FsNode {
    FsNode::Dir(Ok(vec![
        FsEntry { name: b("a.txt"), node: FsNode::File(Ok(b("x y x"))) },
        FsEntry { name: b("b.txt"), node: FsNode::File(Ok(b("y"))) },
    ]))
}

#[test]
fn two_files_scenario() {
    let tree = two_file_tree();
    let res = index_directory(&b("root"), &tree, 1).unwrap();
    assert!(res.errors.errors.is_empty());
    assert_eq!(res.map.word_count(), 2);
    assert_eq!(*res.map.get_offsets(&b("x"), &b("root/a.txt")).unwrap(), vec![0, 4]);
    assert_eq!(*res.map.get_offsets(&b("y"), &b("root/a.txt")).unwrap(), vec![2]);
    assert_eq!(*res.map.get_offsets(&b("y"), &b("root/b.txt")).unwrap(), vec![0]);
    assert!(res.map.get_offsets(&b("x"), &b("root/b.txt")).is_none());
    let files_of_y = res.map.get_word(&b("y")).unwrap();
    assert_eq!(files_of_y.len(), 2);
    assert!(res.map.get_word(&b("missing")).is_none());
}

#[test]
fn depth_zero_directory_is_empty() {
    let tree = two_file_tree();
    let res = index_directory(&b("root"), &tree, 0).unwrap();
    assert_eq!(res.map.word_count(), 0);
    assert!(res.errors.errors.is_empty());
}

#[test]
fn depth_zero_file_is_indexed() {
    let tree = FsNode::File(Ok(b("x y x")));
    let res = index_directory(&b("root"), &tree, 0).unwrap();
    assert_eq!(*res.map.get_offsets(&b("x"), &b("root")).unwrap(), vec![0, 4]);
    assert!(res.errors.errors.is_empty());
}

#[test]
fn missing_root_is_fatal() {
    let tree = FsNode::Unknown(IoErrKind::NotFound);
    let res = index_directory(&b("root"), &tree, 3);
    assert_eq!(res.err().unwrap(), IoErrKind::NotFound);
}

#[test]
fn unlistable_root_directory_is_fatal() {
    let tree = FsNode::Dir(Err(IoErrKind::PermissionDenied));
    let res = index_directory(&b("root"), &tree, 1);
    assert_eq!(res.err().unwrap(), IoErrKind::PermissionDenied);
}

#[test]
fn one_unreadable_file_among_readable_ones() {
    let tree = FsNode::Dir(Ok(vec![
        FsEntry { name: b("a.txt"), node: FsNode::File(Ok(b("alpha"))) },
        FsEntry { name: b("bad.txt"), node: FsNode::File(Err(IoErrKind::PermissionDenied)) },
        FsEntry { name: b("c.txt"), node: FsNode::File(Ok(b("gamma"))) },
    ]));
    let res = index_directory(&b("root"), &tree, 1).unwrap();
    assert_eq!(res.errors.errors.len(), 1);
    assert_eq!(res.errors.errors[0].path, b("root/bad.txt"));
    assert_eq!(res.errors.errors[0].source, IoErrKind::PermissionDenied);
    assert_eq!(*res.map.get_offsets(&b("alpha"), &b("root/a.txt")).unwrap(), vec![0]);
    assert_eq!(*res.map.get_offsets(&b("gamma"), &b("root/c.txt")).unwrap(), vec![0]);
    assert!(res.map.get_offsets(&b("alpha"), &b("root/bad.txt")).is_none());
}

#[test]
fn rerun_on_unchanged_tree_is_identical() {
    let tree = two_file_tree();
    let first = index_directory(&b("root"), &tree, 1).unwrap();
    let second = index_directory(&b("root"), &tree, 1).unwrap();
    assert_eq!(first, second);
}

#[test]
fn concurrency_budget_does_not_change_the_value() {
    let tree = two_file_tree();
    let sequential = build_index(&b("root"), &tree, 1, 1).unwrap();
    let wide = build_index(&b("root"), &tree, 1, 8).unwrap();
    assert_eq!(sequential, wide);
}

#[test]
fn aggregation_is_order_insensitive() {
    let one = || FileOutcome { path: b("p1"), result: Ok(index_string(&b("x y"))) };
    let two = || FileOutcome { path: b("p2"), result: Ok(index_string(&b("y z"))) };
    let ab = aggregate(&vec![one(), two()], IoErrorCollector::new());
    let ba = aggregate(&vec![two(), one()], IoErrorCollector::new());
    for word in ["x", "y", "z"] {
        for path in ["p1", "p2"] {
            assert_eq!(
                ab.map.get_offsets(&b(word), &b(path)),
                ba.map.get_offsets(&b(word), &b(path)),
            );
        }
    }
    assert_eq!(ab.map.word_count(), ba.map.word_count());
}

#[test]
fn depth_budget_limits_descent() {
    let deep = FsNode::Dir(Ok(vec![FsEntry {
        name: b("sub"),
        node: FsNode::Dir(Ok(vec![FsEntry { name: b("d.txt"), node: FsNode::File(Ok(b("w"))) }])),
    }]));
    let shallow = index_directory(&b("root"), &deep, 1).unwrap();
    assert_eq!(shallow.map.word_count(), 0);
    assert!(shallow.errors.errors.is_empty());
    let deeper = index_directory(&b("root"), &deep, 2).unwrap();
    assert_eq!(*deeper.map.get_offsets(&b("w"), &b("root/sub/d.txt")).unwrap(), vec![0]);
}

#[test]
fn entry_failures_are_recorded_and_skipped() {
    let tree = FsNode::Dir(Ok(vec![
        FsEntry { name: b("ghost"), node: FsNode::Unknown(IoErrKind::Other) },
        FsEntry { name: b("locked"), node: FsNode::Dir(Err(IoErrKind::PermissionDenied)) },
        FsEntry { name: b("bad.bin"), node: FsNode::File(Err(IoErrKind::Decode)) },
        FsEntry { name: b("ok.txt"), node: FsNode::File(Ok(b("fine"))) },
    ]));
    let res = index_directory(&b("root"), &tree, 2).unwrap();
    assert_eq!(res.errors.errors.len(), 3);
    assert_eq!(res.errors.errors[0].path, b("root/ghost"));
    assert_eq!(res.errors.errors[0].source, IoErrKind::Other);
    assert_eq!(res.errors.errors[1].path, b("root/locked"));
    assert_eq!(res.errors.errors[1].source, IoErrKind::PermissionDenied);
    assert_eq!(res.errors.errors[2].path, b("root/bad.bin"));
    assert_eq!(res.errors.errors[2].source, IoErrKind::Decode);
    assert_eq!(*res.map.get_offsets(&b("fine"), &b("root/ok.txt")).unwrap(), vec![0]);
}

#[test]
fn traversal_lists_files_in_discovery_order() {
    let tree = two_file_tree();
    let found = get_all_filenames(&b("root"), &tree, 1).unwrap();
    assert_eq!(found.files.len(), 2);
    assert_eq!(found.files[0].path, b("root/a.txt"));
    assert_eq!(found.files[1].path, b("root/b.txt"));
    assert!(found.errors.errors.is_empty());
}

#[test]
fn index_file_passes_read_failures_through() {
    let ok = FileWork { path: b("p"), content: Ok(b("a a")) };
    let fi = index_file(&ok).unwrap();
    assert_eq!(*fi.get(&b("a")).unwrap(), vec![0, 2]);
    let bad = FileWork { path: b("p"), content: Err(IoErrKind::Decode) };
    assert_eq!(index_file(&bad).err().unwrap(), IoErrKind::Decode);
}

#[test]
fn coordinator_decisions() {
    assert_eq!(worker_count(0), 1);
    assert_eq!(worker_count(1), 1);
    assert_eq!(worker_count(2), 1);
    assert_eq!(worker_count(8), 7);
    assert!(runs_sequential(1));
    assert!(runs_sequential(2));
    assert!(!runs_sequential(3));
    assert!(!may_descend(0));
    assert!(!may_descend(1));
    assert!(may_descend(2));
}

#[test]
fn collector_keeps_records_in_order() {
    let mut c = IoErrorCollector::new();
    c.push_err(b("a"), IoErrKind::NotFound);
    c.push_err(b("b"), IoErrKind::Other);
    assert_eq!(c.errors.len(), 2);
    assert_eq!(c.errors[0].path, b("a"));
    assert_eq!(c.errors[0].source, IoErrKind::NotFound);
    assert_eq!(c.errors[1].path, b("b"));
    assert_eq!(c.errors[1].source, IoErrKind::Other);
}
