use backup_copier::copy_handler::CopyHandler;
use backup_copier::folder_tree::{FolderTree, FolderTreeNode, FsNodeKind};
use backup_copier::scheduler::{CopyScheduler, OpOutcome, OpState};

fn file(name: &str) -> Box<FolderTreeNode> {
    Box::new(FolderTreeNode::new(FsNodeKind::File, name.to_string(), format!("src/root/{}", name)))
}

// root/{a.txt, sub/{b.txt, c.txt}}: plan positions 0 root, 1 a.txt, 2 sub, 3 b.txt, 4 c.txt
fn sample_scheduler(limit: usize) -> CopyScheduler {
    let mut sub = FolderTreeNode::new(FsNodeKind::Dir, "sub".to_string(), "src/root/sub".to_string());
    sub.add_child(*file("b.txt"));
    sub.add_child(*file("c.txt"));
    let tree = FolderTree::new("src/root", vec![file("a.txt"), Box::new(sub)]);
    let handler = CopyHandler::with_limit(limit).unwrap();
    handler.schedule(CopyHandler::plan_nested(&tree.root, "dest"))
}

fn states(s: &CopyScheduler) -> Vec<OpState> {
    (0..s.len()).map(|i| s.state(i)).collect()
}

#[test]
fn directory_starts_before_its_entries() {
    let mut s = sample_scheduler(8);
    assert_eq!(s.next_ready(), Some(0));
    assert_eq!(s.next_ready(), None);
    s.finish(0, OpOutcome::Completed);
    assert_eq!(s.next_ready(), Some(1));
    assert_eq!(s.next_ready(), Some(2));
    assert_eq!(s.next_ready(), None);
    s.finish(2, OpOutcome::Completed);
    assert_eq!(s.next_ready(), Some(3));
    assert_eq!(s.next_ready(), Some(4));
    assert_eq!(s.in_flight(), 3);
}

#[test]
fn bound_on_operations_in_flight() {
    let mut files = Vec::new();
    for i in 0..5 {
        files.push(file(&format!("f{}", i)));
    }
    let tree = FolderTree::new("src/root", files);
    let handler = CopyHandler::with_limit(2).unwrap();
    let mut s = handler.schedule(CopyHandler::plan_nested(&tree.root, "dest"));
    assert_eq!(s.next_ready(), Some(0));
    s.finish(0, OpOutcome::Completed);
    assert_eq!(s.next_ready(), Some(1));
    assert_eq!(s.next_ready(), Some(2));
    assert_eq!(s.next_ready(), None);
    assert_eq!(s.in_flight(), 2);
    s.finish(2, OpOutcome::Completed);
    assert_eq!(s.next_ready(), Some(3));
    assert_eq!(s.next_ready(), None);
}

#[test]
fn any_completion_order_ends_with_everything_done() {
    let mut s = sample_scheduler(8);
    let mut started = Vec::new();
    while !s.is_finished() {
        while let Some(i) = s.next_ready() {
            started.push(i);
        }
        // report back the most recently started first
        let i = started.pop().unwrap();
        s.finish(i, OpOutcome::Completed);
    }
    assert_eq!(states(&s), vec![OpState::Done; 5]);
    assert!(s.faults().is_empty());
}

#[test]
fn existing_destination_directories_are_not_faults() {
    let mut s = sample_scheduler(8);
    assert_eq!(s.next_ready(), Some(0));
    s.finish(0, OpOutcome::AlreadyExists);
    assert_eq!(s.next_ready(), Some(1));
    assert_eq!(s.next_ready(), Some(2));
    s.finish(1, OpOutcome::Completed);
    s.finish(2, OpOutcome::AlreadyExists);
    assert_eq!(s.next_ready(), Some(3));
    assert_eq!(s.next_ready(), Some(4));
    s.finish(3, OpOutcome::Completed);
    s.finish(4, OpOutcome::Completed);
    assert!(s.is_finished());
    assert!(s.faults().is_empty());
    assert_eq!(states(&s), vec![OpState::Done; 5]);
}

#[test]
fn unreadable_file_is_one_fault_and_siblings_complete() {
    let mut s = sample_scheduler(8);
    assert_eq!(s.next_ready(), Some(0));
    s.finish(0, OpOutcome::Completed);
    assert_eq!(s.next_ready(), Some(1));
    assert_eq!(s.next_ready(), Some(2));
    s.finish(2, OpOutcome::Completed);
    assert_eq!(s.next_ready(), Some(3));
    assert_eq!(s.next_ready(), Some(4));
    s.finish(3, OpOutcome::Failed);
    s.finish(4, OpOutcome::Completed);
    s.finish(1, OpOutcome::Completed);
    assert!(s.is_finished());
    assert_eq!(s.faults(), vec![3]);
    assert_eq!(s.op(3).dest, "dest/root/sub/b.txt");
    assert_eq!(
        states(&s),
        vec![OpState::Done, OpState::Done, OpState::Done, OpState::Failed, OpState::Done]
    );
}

#[test]
fn failed_directory_skips_what_lies_under_it() {
    let mut s = sample_scheduler(8);
    assert_eq!(s.next_ready(), Some(0));
    s.finish(0, OpOutcome::Completed);
    assert_eq!(s.next_ready(), Some(1));
    assert_eq!(s.next_ready(), Some(2));
    s.finish(2, OpOutcome::Failed);
    assert_eq!(s.next_ready(), None);
    s.finish(1, OpOutcome::Completed);
    assert!(s.is_finished());
    assert_eq!(s.faults(), vec![2, 3, 4]);
    assert_eq!(
        states(&s),
        vec![OpState::Done, OpState::Done, OpState::Failed, OpState::Skipped, OpState::Skipped]
    );
}

#[test]
fn failed_root_skips_everything_else() {
    let mut s = sample_scheduler(1);
    assert_eq!(s.next_ready(), Some(0));
    s.finish(0, OpOutcome::Failed);
    assert!(s.is_finished());
    assert_eq!(s.faults(), vec![0, 1, 2, 3, 4]);
}

#[test]
fn empty_directory_is_one_operation() {
    let tree = FolderTree::new("src/empty", vec![]);
    let mut s = CopyHandler::new().schedule(CopyHandler::plan_nested(&tree.root, "dest"));
    assert_eq!(s.len(), 1);
    assert!(!s.is_finished());
    assert_eq!(s.next_ready(), Some(0));
    s.finish(0, OpOutcome::Completed);
    assert!(s.is_finished());
    assert!(s.faults().is_empty());
}
