use arcade_queue::Queue;
use arcade_queue::QueueError;

#[test]
fn construction_rejects_zero_group_size() {
    assert!(matches!(
        Queue::new("any", 0),
        Err(QueueError::TooLessPlayersError)
    ));
    assert!(matches!(Queue::new("", 0), Err(QueueError::TooLessPlayersError)));
}

#[test]
fn construction_accepts_positive_group_sizes() {
    for n in 1..=6u8 {
        let q = Queue::new("game", n).unwrap();
        assert_eq!(q.get_queue(), Vec::<String>::new());
    }
    let q = Queue::new("game", u8::MAX).unwrap();
    assert_eq!(q.get_queue(), Vec::<String>::new());
}

#[test]
fn duplicate_join_fails_and_leaves_queue_unchanged() {
    let mut q = Queue::new("game", 1).unwrap();
    q.join("a").unwrap();
    q.join("b").unwrap();
    assert!(matches!(q.join("a"), Err(QueueError::AlreadyInQueueError)));
    assert_eq!(q.get_queue(), vec!["a", "b"]);
}

#[test]
fn joins_keep_fifo_order() {
    let mut q = Queue::new("game", 3).unwrap();
    for p in ["p1", "p2", "p3", "p4", "p5"] {
        q.join(p).unwrap();
    }
    assert_eq!(q.get_queue(), vec!["p1", "p2", "p3", "p4", "p5"]);
}

#[test]
fn advance_drains_head_first_then_signals_empty() {
    let mut q = Queue::new("game", 1).unwrap();
    for p in ["p1", "p2", "p3"] {
        q.join(p).unwrap();
    }
    assert_eq!(q.nextone(), Some("p1".to_string()));
    assert_eq!(q.nextone(), Some("p2".to_string()));
    assert_eq!(q.nextone(), Some("p3".to_string()));
    assert_eq!(q.nextone(), None);
    assert_eq!(q.nextone(), None);
}

#[test]
fn rotation_moves_head_to_tail() {
    let mut q = Queue::new("game", 1).unwrap();
    for p in ["p1", "p2", "p3"] {
        q.join(p).unwrap();
    }
    assert_eq!(q.nextone_to_back().unwrap(), Some("p1".to_string()));
    assert_eq!(q.get_queue(), vec!["p2", "p3", "p1"]);
}

#[test]
fn rotation_on_empty_queue_yields_nothing() {
    let mut q = Queue::new("game", 2).unwrap();
    assert_eq!(q.nextone_to_back().unwrap(), None);
    assert_eq!(q.get_queue(), Vec::<String>::new());
}

#[test]
fn group_release_returns_min_of_size_and_members() {
    let mut q = Queue::new("game", 3).unwrap();
    for p in ["a", "b", "c", "d", "e"] {
        q.join(p).unwrap();
    }
    assert_eq!(q.next_group(), vec!["a", "b", "c"]);
    assert_eq!(q.get_queue(), vec!["d", "e"]);
    assert_eq!(q.next_group(), vec!["d", "e"]);
    assert_eq!(q.get_queue(), Vec::<String>::new());
    assert_eq!(q.next_group(), Vec::<String>::new());
}

#[test]
fn full_rotation_with_dividing_group_size_restores_order() {
    let mut q = Queue::new("game", 2).unwrap();
    for p in ["a", "b", "c", "d"] {
        q.join(p).unwrap();
    }
    assert_eq!(q.next_group_to_back().unwrap(), vec!["a", "b"]);
    assert_eq!(q.next_group_to_back().unwrap(), vec!["c", "d"]);
    assert_eq!(q.get_queue(), vec!["a", "b", "c", "d"]);
}

#[test]
fn full_rotation_of_short_queue_restores_order() {
    let mut q = Queue::new("game", 5).unwrap();
    for p in ["a", "b", "c"] {
        q.join(p).unwrap();
    }
    assert_eq!(q.next_group_to_back().unwrap(), vec!["a", "b", "c"]);
    assert_eq!(q.get_queue(), vec!["a", "b", "c"]);
}

#[test]
fn one_single_rotation_per_member_restores_order() {
    let mut q = Queue::new("game", 2).unwrap();
    for p in ["a", "b", "c"] {
        q.join(p).unwrap();
    }
    for _ in 0..3 {
        q.nextone_to_back().unwrap();
    }
    assert_eq!(q.get_queue(), vec!["a", "b", "c"]);
}

#[test]
fn format_uses_comma_space_and_no_trailing_separator() {
    let mut q = Queue::new("game", 1).unwrap();
    assert_eq!(q.format_queue(), "");
    q.join("x").unwrap();
    q.join("y").unwrap();
    assert_eq!(q.format_queue(), "x, y");
}

#[test]
fn quit_removes_the_player_and_ignores_strangers() {
    let mut q = Queue::new("game", 1).unwrap();
    for p in ["a", "b", "c"] {
        q.join(p).unwrap();
    }
    q.quit("nobody");
    assert_eq!(q.get_queue(), vec!["a", "b", "c"]);
    q.quit("b");
    assert_eq!(q.get_queue(), vec!["a", "c"]);
    q.quit("a");
    q.quit("c");
    assert_eq!(q.get_queue(), Vec::<String>::new());
}

#[test]
fn snapshot_does_not_alias_the_queue() {
    let mut q = Queue::new("game", 1).unwrap();
    q.join("a").unwrap();
    let snap = q.get_queue();
    q.join("b").unwrap();
    assert_eq!(snap, vec!["a"]);
    assert_eq!(q.get_queue(), vec!["a", "b"]);
}

#[test]
fn group_release_scenario() {
    let mut q = Queue::new("trivia", 2).unwrap();
    q.join("alice").unwrap();
    q.join("bob").unwrap();
    q.join("carol").unwrap();
    assert_eq!(q.next_group(), vec!["alice", "bob"]);
    assert_eq!(q.get_queue(), vec!["carol"]);
    assert_eq!(q.next_group(), vec!["carol"]);
    assert_eq!(q.get_queue(), Vec::<String>::new());
    assert_eq!(q.next_group(), Vec::<String>::new());
}

#[test]
fn group_rotation_scenario() {
    let mut q = Queue::new("trivia", 2).unwrap();
    q.join("a").unwrap();
    q.join("b").unwrap();
    q.join("c").unwrap();
    assert_eq!(q.next_group_to_back().unwrap(), vec!["a", "b"]);
    assert_eq!(q.get_queue(), vec!["c", "a", "b"]);
    assert_eq!(q.next_group_to_back().unwrap(), vec!["c", "a"]);
    assert_eq!(q.get_queue(), vec!["b", "c", "a"]);
}

#[test]
fn display_renders_name_size_and_members() {
    let mut q = Queue::new("pinball", 12).unwrap();
    q.join("a").unwrap();
    assert_eq!(q.display_string(), "pinball (12 player(s) each round): a");
    let q2 = Queue::new("", 255).unwrap();
    assert_eq!(q2.display_string(), " (255 player(s) each round): ");
}
