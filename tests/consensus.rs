use auradb::consensus::{RaftNode, Role};
use std::time::{Duration, Instant};

#[test]
fn test_election_timeout_trigger() {
    let mut node = RaftNode::new(1);
    assert_eq!(node.role, Role::Follower);
    assert_eq!(node.current_term, 0);
    let start = Instant::now();
    while start.elapsed() < Duration::from_millis(650) {
        std::hint::spin_loop();
    }
    node.tick();
    assert_eq!(node.role, Role::Candidate);
    assert_eq!(node.current_term, 1);
    assert_eq!(node.voted_for, Some(1));
}

#[test]
fn timer_decisions() {
    let mut node = RaftNode::new(4);
    assert!(node.election_timeout >= 300 && node.election_timeout < 600);
    node.tick_after(node.election_timeout);
    assert_eq!(node.role, Role::Follower);
    node.tick_after(600);
    assert_eq!(node.role, Role::Candidate);
    assert_eq!(node.current_term, 1);
    let vote = node.request_votes();
    assert_eq!((vote.term, vote.candidate_id), (1, 4));
    node.role = Role::Leader;
    node.tick_after(10_000);
    assert_eq!((node.role, node.current_term), (Role::Leader, 1));
    node.reset_election_timer();
    assert_eq!(node.current_term, 1);
}
