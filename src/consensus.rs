//! A Raft node's election timer and role changes, and the messages of the
//! protocol. Not wired into the database.
use rand::Rng;
use vstd::prelude::*;

verus! {

/// Shortest election timeout, in milliseconds.
pub const ELECTION_TIMEOUT_MIN: u64 = 300;

/// Bound of election timeouts, in milliseconds (exclusive).
pub const ELECTION_TIMEOUT_MAX: u64 = 600;

#[derive(Debug, Clone, Copy, PartialEq, Eq, Structural)]
pub enum Role {
    Follower,
    Candidate,
    Leader,
}

#[verifier::external_type_specification]
#[verifier::external_body]
pub struct ExInstant(std::time::Instant);

/// Relies on `Instant::now`: the current instant.
#[verifier::external_body]
fn now() -> (r: std::time::Instant) {
    std::time::Instant::now()
}

/// Relies on `Instant::elapsed`: the milliseconds since `t`, saturated.
#[verifier::external_body]
fn millis_since(t: &std::time::Instant) -> (r: u64) {
    u64::try_from(t.elapsed().as_millis()).unwrap_or(u64::MAX)
}

/// Relies on `Rng::gen_range` over the thread generator: a number in
/// `[300, 600)`.
#[verifier::external_body]
fn random_timeout() -> (r: u64)
    ensures
        ELECTION_TIMEOUT_MIN <= r < ELECTION_TIMEOUT_MAX,
{
    rand::thread_rng().gen_range(ELECTION_TIMEOUT_MIN..ELECTION_TIMEOUT_MAX)
}

/// Sent by candidates to gather votes.
#[derive(Debug)]
pub struct RequestVote {
    pub term: u64,
    pub candidate_id: u32,
    pub last_log_index: u64,
    pub last_log_term: u64,
}

/// The answer to a `RequestVote`.
#[derive(Debug)]
pub struct RequestVoteResponse {
    pub term: u64,
    pub vote_granted: bool,
}

/// Sent by leaders as a heartbeat.
#[derive(Debug)]
pub struct AppendEntries {
    pub term: u64,
    pub leader_id: u32,
}

pub struct RaftNode {
    pub id: u32,
    pub current_term: u64,
    pub voted_for: Option<u32>,
    pub role: Role,
    pub last_heartbeat: std::time::Instant,
    /// Milliseconds without a heartbeat after which an election starts.
    pub election_timeout: u64,
}

impl RaftNode {
    /// A follower in term 0 that has voted for no one, with a fresh timer.
    pub fn new(id: u32) -> (r: RaftNode)
        ensures
            r.id == id,
            r.current_term == 0,
            r.voted_for is None,
            r.role == Role::Follower,
            ELECTION_TIMEOUT_MIN <= r.election_timeout < ELECTION_TIMEOUT_MAX,
    {
        RaftNode {
            id,
            current_term: 0,
            voted_for: None,
            role: Role::Follower,
            last_heartbeat: now(),
            election_timeout: random_timeout(),
        }
    }

    /// Checks the election timer against the clock.
    pub fn tick(&mut self)
        requires
            old(self).current_term < u64::MAX,
        ensures
            final(self).id == old(self).id,
            (final(self).role == old(self).role && final(self).current_term == old(self).current_term
                && final(self).voted_for == old(self).voted_for) || (final(self).role == Role::Candidate
                && old(self).role != Role::Leader && final(self).current_term == old(self).current_term + 1
                && final(self).voted_for == Some(old(self).id)),
    {
        if self.role == Role::Leader {
            return;
        }
        let waited = millis_since(&self.last_heartbeat);
        self.tick_after(waited);
    }

    /// The timer's decision after `waited` milliseconds without a heartbeat:
    /// a leader stays as it is; another node starts an election once more
    /// than its timeout has passed.
    pub fn tick_after(&mut self, waited: u64)
        requires
            old(self).current_term < u64::MAX,
        ensures
            final(self).id == old(self).id,
            old(self).role != Role::Leader && waited > old(self).election_timeout ==> final(self).role
                == Role::Candidate && final(self).current_term == old(self).current_term + 1
                && final(self).voted_for == Some(old(self).id),
            !(old(self).role != Role::Leader && waited > old(self).election_timeout)
                ==> final(self).role == old(self).role && final(self).current_term == old(
                self).current_term && final(self).voted_for == old(self).voted_for,
    {
        if self.role == Role::Leader {
            return;
        }
        if waited > self.election_timeout {
            self.start_election();
        }
    }

    /// Becomes a candidate: next term, a vote for itself, a fresh timer.
    fn start_election(&mut self)
        requires
            old(self).current_term < u64::MAX,
        ensures
            final(self).id == old(self).id,
            final(self).role == Role::Candidate,
            final(self).current_term == old(self).current_term + 1,
            final(self).voted_for == Some(old(self).id),
    {
        self.role = Role::Candidate;
        self.current_term = self.current_term + 1;
        self.voted_for = Some(self.id);
        self.last_heartbeat = now();
        self.election_timeout = random_timeout();
        let _ = self.request_votes();
    }

    /// The vote request this node sends in its current term.
    pub fn request_votes(&self) -> (r: RequestVote)
        ensures
            r.term == self.current_term,
            r.candidate_id == self.id,
            r.last_log_index == 0,
            r.last_log_term == 0,
    {
        RequestVote { term: self.current_term, candidate_id: self.id, last_log_index: 0, last_log_term: 0 }
    }

    /// Restarts the timer, as on a heartbeat from the leader.
    pub fn reset_election_timer(&mut self)
        ensures
            final(self).id == old(self).id,
            final(self).role == old(self).role,
            final(self).current_term == old(self).current_term,
            final(self).voted_for == old(self).voted_for,
            ELECTION_TIMEOUT_MIN <= final(self).election_timeout < ELECTION_TIMEOUT_MAX,
    {
        self.last_heartbeat = now();
        self.election_timeout = random_timeout();
    }
}

} // verus!
