//! Vote-to-mute consensus: per-target, time-windowed accumulation of unique
//! voters toward a threshold. An eligibility gate runs before any mutation; a
//! session is created on the first vote, reset (not extended) when a vote
//! arrives strictly after its expiry, rejects duplicate voters, and resolves —
//! removing itself — the moment the threshold is reached, so overshoot is
//! impossible. The caller applies the fixed penalty when told `Resolved`.

use vstd::prelude::*;

verus! {

/// How long a voting window stays open, in seconds.
pub const VOTE_WINDOW_SECONDS: i64 = 300;

/// The fixed penalty a resolved vote applies, in minutes.
pub const PENALTY_MINUTES: u64 = 30;

/// Why a vote was turned away before any state changed.
#[derive(Clone, Copy, PartialEq, Eq, Structural, Debug)]
pub enum RejectReason {
    /// The voter lacks the required role.
    InsufficientPermission,
    /// The voter is the target.
    SelfTarget,
    /// The target holds a protected role.
    ProtectedTarget,
    /// The target is an excluded actor class, such as an automated account.
    ExcludedTarget,
    /// The target is already under an active penalty.
    AlreadyPenalized,
}

/// Answers of the external permission oracle and member lookups, collected
/// before the eligibility checks run.
#[derive(Clone, Copy, PartialEq, Eq, Structural, Debug)]
pub struct Eligibility {
    pub voter_has_required_role: bool,
    pub target_protected: bool,
    pub target_excluded: bool,
    pub target_penalized: bool,
}

/// What one vote call reports back.
#[derive(Clone, Copy, PartialEq, Eq, Structural, Debug)]
pub enum VoteOutcome {
    /// The eligibility gate failed; nothing changed.
    Rejected { reason: RejectReason },
    /// The voter had already voted in the open window; nothing changed, and
    /// the current progress is reported.
    Duplicate { votes: usize, threshold: u32 },
    /// The vote was recorded; the session stays open at `votes` of `threshold`.
    Progress { votes: usize, threshold: u32 },
    /// The threshold was reached: the session is gone and the caller applies
    /// the fixed penalty.
    Resolved { penalty_minutes: u64 },
}

/// The eligibility gate, checked fully before any mutation. The checks run in
/// a fixed order, so each failure yields one distinct reason.
pub open spec fn validate_spec(e: Eligibility, voter: u64, target: u64) -> Option<RejectReason> {
    if !e.voter_has_required_role {
        Some(RejectReason::InsufficientPermission)
    } else if voter == target {
        Some(RejectReason::SelfTarget)
    } else if e.target_protected {
        Some(RejectReason::ProtectedTarget)
    } else if e.target_excluded {
        Some(RejectReason::ExcludedTarget)
    } else if e.target_penalized {
        Some(RejectReason::AlreadyPenalized)
    } else {
        None
    }
}

/// Runs the eligibility gate. Read-only: it touches no session state.
pub fn validate(e: Eligibility, voter: u64, target: u64) -> (r: Option<RejectReason>)
    ensures
        r == validate_spec(e, voter, target),
{
    if !e.voter_has_required_role {
        Some(RejectReason::InsufficientPermission)
    } else if voter == target {
        Some(RejectReason::SelfTarget)
    } else if e.target_protected {
        Some(RejectReason::ProtectedTarget)
    } else if e.target_excluded {
        Some(RejectReason::ExcludedTarget)
    } else if e.target_penalized {
        Some(RejectReason::AlreadyPenalized)
    } else {
        None
    }
}

/// One open voting session against a target.
pub struct VoteSession {
    pub target_id: u64,
    pub expiry: i64,
    pub voters: Vec<u64>,
    pub threshold: u32,
}

/// The mathematical value of a session.
#[verifier::ext_equal]
pub ghost struct SessionView {
    pub target_id: u64,
    pub expiry: i64,
    pub voters: Seq<u64>,
    pub threshold: u32,
}

impl SessionView {
    /// At least one voter, and never a duplicate voter id.
    pub open spec fn wf(self) -> bool {
        &&& self.voters.len() >= 1
        &&& forall|i: int, j: int|
            0 <= i < j < self.voters.len() ==> self.voters[i] != self.voters[j]
    }
}

impl View for VoteSession {
    type V = SessionView;

    open spec fn view(&self) -> SessionView {
        SessionView {
            target_id: self.target_id,
            expiry: self.expiry,
            voters: self.voters@,
            threshold: self.threshold,
        }
    }
}

/// Well-formed registry state: each session is well-formed and no two are
/// against the same target.
pub open spec fn sessions_wf(s: Seq<SessionView>) -> bool {
    &&& forall|i: int| 0 <= i < s.len() ==> (#[trigger] s[i]).wf()
    &&& forall|i: int, j: int| 0 <= i < j < s.len() ==> s[i].target_id != s[j].target_id
}

pub open spec fn has_session(s: Seq<SessionView>, target: u64) -> bool {
    exists|i: int| 0 <= i < s.len() && s[i].target_id == target
}

pub open spec fn session_index(s: Seq<SessionView>, target: u64) -> int {
    choose|i: int| 0 <= i < s.len() && s[i].target_id == target
}

pub open spec fn session_of(s: Seq<SessionView>, target: u64) -> SessionView {
    s[session_index(s, target)]
}

/// The whole transition relation of one vote, as a pure function from the
/// registry state and the call's inputs to the next state and the outcome.
pub open spec fn vote_step(
    s: Seq<SessionView>,
    target: u64,
    voter: u64,
    threshold: u32,
    now: i64,
    e: Eligibility,
) -> (Seq<SessionView>, VoteOutcome) {
    match validate_spec(e, voter, target) {
        Some(reason) => (s, VoteOutcome::Rejected { reason }),
        None => {
            if !has_session(s, target) {
                let ns = SessionView {
                    target_id: target,
                    expiry: (now + VOTE_WINDOW_SECONDS) as i64,
                    voters: seq![voter],
                    threshold,
                };
                (s.push(ns), VoteOutcome::Progress { votes: 1, threshold })
            } else {
                let i = session_index(s, target);
                let cur = s[i];
                if now > cur.expiry {
                    let ns = SessionView {
                        target_id: target,
                        expiry: (now + VOTE_WINDOW_SECONDS) as i64,
                        voters: seq![voter],
                        threshold: cur.threshold,
                    };
                    (s.update(i, ns), VoteOutcome::Progress { votes: 1, threshold: cur.threshold })
                } else if cur.voters.contains(voter) {
                    (
                        s,
                        VoteOutcome::Duplicate {
                            votes: cur.voters.len() as usize,
                            threshold: cur.threshold,
                        },
                    )
                } else {
                    let voters2 = cur.voters.push(voter);
                    if voters2.len() == cur.threshold as nat {
                        (
                            s.remove(i),
                            VoteOutcome::Resolved { penalty_minutes: PENALTY_MINUTES },
                        )
                    } else {
                        let ns = SessionView {
                            target_id: cur.target_id,
                            expiry: cur.expiry,
                            voters: voters2,
                            threshold: cur.threshold,
                        };
                        (
                            s.update(i, ns),
                            VoteOutcome::Progress {
                                votes: voters2.len() as usize,
                                threshold: cur.threshold,
                            },
                        )
                    }
                }
            }
        },
    }
}

/// A well-formed session against a fresh target can be added.
proof fn lemma_wf_push(s: Seq<SessionView>, x: SessionView)
    requires
        sessions_wf(s),
        x.wf(),
        !has_session(s, x.target_id),
    ensures
        sessions_wf(s.push(x)),
{
    let s2 = s.push(x);
    assert forall|i: int, j: int| 0 <= i < j < s2.len() implies s2[i].target_id
        != s2[j].target_id by {
        if j == s2.len() - 1 {
            assert(s[i].target_id != x.target_id);
        }
    }
}

/// Replacing a session by a well-formed one against the same target keeps the
/// registry well-formed.
proof fn lemma_wf_update(s: Seq<SessionView>, i: int, x: SessionView)
    requires
        sessions_wf(s),
        0 <= i < s.len(),
        x.wf(),
        x.target_id == s[i].target_id,
    ensures
        sessions_wf(s.update(i, x)),
{
}

/// Removing a session keeps the registry well-formed, and the removed target
/// has no session left.
proof fn lemma_wf_remove(s: Seq<SessionView>, i: int)
    requires
        sessions_wf(s),
        0 <= i < s.len(),
    ensures
        sessions_wf(s.remove(i)),
        !has_session(s.remove(i), s[i].target_id),
{
    let s2 = s.remove(i);
    assert forall|a: int, b: int| 0 <= a < b < s2.len() implies s2[a].target_id
        != s2[b].target_id by {
        let a0: int = if a < i {
            a
        } else {
            a + 1
        };
        let b0: int = if b < i {
            b
        } else {
            b + 1
        };
        assert(s2[a] == s[a0]);
        assert(s2[b] == s[b0]);
    }
    assert forall|a: int| 0 <= a < s2.len() implies s2[a].target_id != s[i].target_id by {
        let a0: int = if a < i {
            a
        } else {
            a + 1
        };
        assert(s2[a] == s[a0]);
    }
}

/// In a well-formed registry, an index's target finds exactly that index.
proof fn lemma_session_index_unique(s: Seq<SessionView>, i: int)
    requires
        sessions_wf(s),
        0 <= i < s.len(),
    ensures
        has_session(s, s[i].target_id),
        session_index(s, s[i].target_id) == i,
        session_of(s, s[i].target_id) == s[i],
{
    assert(has_session(s, s[i].target_id));
    let j = session_index(s, s[i].target_id);
    if j < i {
        assert(s[j].target_id != s[i].target_id);
    } else if j > i {
        assert(s[i].target_id != s[j].target_id);
    }
}

/// Relies on chrono::Utc::now and DateTime::timestamp: the current system
/// time, as whole seconds since the Unix epoch. Nothing is promised of the
/// value, since it depends on when the call happens. The call aborts only on a
/// system clock standing before the epoch.
#[verifier::external_body]
fn now_timestamp() -> i64 {
    chrono::Utc::now().timestamp()
}

/// Whether `voter` already appears in the list.
fn contains_voter(v: &Vec<u64>, voter: u64) -> (r: bool)
    ensures
        r == v@.contains(voter),
{
    let n = v.len();
    let mut i: usize = 0;
    while i < n
        invariant
            i <= n,
            n == v@.len(),
            forall|j: int| 0 <= j < i ==> v@[j] != voter,
        decreases n - i,
    {
        if v[i] == voter {
            assert(v@[i as int] == voter);
            return true;
        }
        i = i + 1;
    }
    false
}

/// The shared target-to-session registry; all mutation goes through `vote`.
pub struct VoteRegistry {
    sessions: Vec<VoteSession>,
}

impl View for VoteRegistry {
    type V = Seq<SessionView>;

    closed spec fn view(&self) -> Seq<SessionView> {
        self.sessions@.map_values(|sess: VoteSession| sess@)
    }
}

impl VoteRegistry {
    pub open spec fn wf(self) -> bool {
        sessions_wf(self@)
    }

    pub fn new() -> (r: VoteRegistry)
        ensures
            r@ == Seq::<SessionView>::empty(),
            r.wf(),
    {
        let r = VoteRegistry { sessions: Vec::new() };
        proof {
            assert(r@ =~= Seq::<SessionView>::empty());
        }
        r
    }

    /// How many sessions are open.
    pub fn session_count(&self) -> (n: usize)
        ensures
            n == self@.len(),
    {
        self.sessions.len()
    }

    /// The open session against `target`, if any, as progress so far.
    pub fn get_progress(&self, target: u64) -> (r: Option<(usize, u32)>)
        requires
            self.wf(),
        ensures
            match r {
                Some(p) => has_session(self@, target) && p.0 == session_of(
                    self@,
                    target,
                ).voters.len() && p.1 == session_of(self@, target).threshold,
                None => !has_session(self@, target),
            },
    {
        match self.find_target(target) {
            Some(i) => {
                let sess = &self.sessions[i];
                Some((sess.voters.len(), sess.threshold))
            },
            None => None,
        }
    }

    /// The index of the session against `target`, if one is open.
    fn find_target(&self, target: u64) -> (r: Option<usize>)
        requires
            self.wf(),
        ensures
            match r {
                Some(i) => i < self@.len() && self@[i as int].target_id == target && i as int
                    == session_index(self@, target) && has_session(self@, target),
                None => !has_session(self@, target),
            },
    {
        let n = self.sessions.len();
        proof {
            assert(self@.len() == n);
        }
        let mut i: usize = 0;
        while i < n
            invariant
                i <= n,
                n == self@.len(),
                self.wf(),
                forall|j: int| 0 <= j < i ==> self@[j].target_id != target,
            decreases n - i,
        {
            proof {
                assert(self@[i as int] == self.sessions@[i as int]@);
            }
            if self.sessions[i].target_id == target {
                proof {
                    let ci = session_index(self@, target);
                    assert(0 <= ci < self@.len() && self@[ci].target_id == target);
                    assert(ci == i as int);
                }
                return Some(i);
            }
            i = i + 1;
        }
        None
    }

    /// One vote at the current wall-clock time: reads the clock once and steps
    /// the state machine with it. `None` only when the clock reading stands so
    /// late that the voting window's end would not fit a timestamp; nothing
    /// changes then.
    pub fn vote_now(
        &mut self,
        target: u64,
        voter: u64,
        threshold: u32,
        e: Eligibility,
    ) -> (r: Option<VoteOutcome>)
        requires
            old(self).wf(),
        ensures
            final(self).wf(),
            match r {
                Some(out) => exists|now: i64|
                    {
                        &&& now + VOTE_WINDOW_SECONDS <= i64::MAX
                        &&& final(self)@ == (#[trigger] vote_step(
                            old(self)@,
                            target,
                            voter,
                            threshold,
                            now,
                            e,
                        )).0
                        &&& out == vote_step(old(self)@, target, voter, threshold, now, e).1
                    },
                None => final(self)@ == old(self)@,
            },
    {
        let now = now_timestamp();
        if now <= i64::MAX - VOTE_WINDOW_SECONDS {
            let out = self.vote(target, voter, threshold, now, e);
            Some(out)
        } else {
            None
        }
    }

    /// One vote by `voter` against `target`. The eligibility gate runs first
    /// and rejects without mutating; otherwise the session is created, reset
    /// after expiry, extended by an unseen voter, or resolved and removed the
    /// moment the voter count reaches the threshold. The whole effect equals
    /// `vote_step` on the prior state.
    pub fn vote(
        &mut self,
        target: u64,
        voter: u64,
        threshold: u32,
        now: i64,
        e: Eligibility,
    ) -> (r: VoteOutcome)
        requires
            old(self).wf(),
            now + VOTE_WINDOW_SECONDS <= i64::MAX,
        ensures
            final(self).wf(),
            final(self)@ == vote_step(old(self)@, target, voter, threshold, now, e).0,
            r == vote_step(old(self)@, target, voter, threshold, now, e).1,
    {
        let ghost s0 = self@;
        let ghost vf = |sess: VoteSession| sess@;
        if let Some(reason) = validate(e, voter, target) {
            return VoteOutcome::Rejected { reason };
        }
        match self.find_target(target) {
            None => {
                let mut voters: Vec<u64> = Vec::new();
                voters.push(voter);
                let ns = VoteSession {
                    target_id: target,
                    expiry: now + VOTE_WINDOW_SECONDS,
                    voters,
                    threshold,
                };
                proof {
                    assert(ns@.voters =~= seq![voter]);
                }
                self.sessions.push(ns);
                proof {
                    assert(self@ =~= s0.push(ns@));
                    assert(vote_step(s0, target, voter, threshold, now, e).0 =~= self@);
                    lemma_wf_push(s0, ns@);
                }
                VoteOutcome::Progress { votes: 1, threshold }
            },
            Some(i) => {
                let ghost idx = i as int;
                let ghost cur = s0[idx];
                if now > self.sessions[i].expiry {
                    // A fresh window: prior voters are discarded, not kept.
                    let th = self.sessions[i].threshold;
                    let mut voters: Vec<u64> = Vec::new();
                    voters.push(voter);
                    let ns = VoteSession {
                        target_id: target,
                        expiry: now + VOTE_WINDOW_SECONDS,
                        voters,
                        threshold: th,
                    };
                    proof {
                        assert(ns@.voters =~= seq![voter]);
                    }
                    let slot = &mut self.sessions[i];
                    *slot = ns;
                    proof {
                        assert(self@ =~= s0.update(idx, ns@));
                        assert(vote_step(s0, target, voter, threshold, now, e).0 =~= self@);
                        lemma_wf_update(s0, idx, ns@);
                    }
                    VoteOutcome::Progress { votes: 1, threshold: th }
                } else if contains_voter(&self.sessions[i].voters, voter) {
                    let sess = &self.sessions[i];
                    VoteOutcome::Duplicate { votes: sess.voters.len(), threshold: sess.threshold }
                } else {
                    let th = self.sessions[i].threshold;
                    let slot = &mut self.sessions[i];
                    slot.voters.push(voter);
                    let newlen = slot.voters.len();
                    let ghost ns = SessionView {
                        target_id: cur.target_id,
                        expiry: cur.expiry,
                        voters: cur.voters.push(voter),
                        threshold: cur.threshold,
                    };
                    proof {
                        assert(self@ =~= s0.update(idx, ns));
                        lemma_wf_update(s0, idx, ns);
                    }
                    if newlen == th as usize {
                        self.sessions.remove(i);
                        proof {
                            assert(self@ =~= s0.update(idx, ns).remove(idx));
                            assert(s0.update(idx, ns).remove(idx) =~= s0.remove(idx));
                            lemma_wf_remove(s0, idx);
                        }
                        VoteOutcome::Resolved { penalty_minutes: PENALTY_MINUTES }
                    } else {
                        VoteOutcome::Progress { votes: newlen, threshold: th }
                    }
                }
            },
        }
    }
}

/// Voting never duplicates a voter and never doubles a target: every state a
/// vote can reach from a well-formed registry is well-formed, so a session's
/// voters hold no duplicate id at any observable point.
pub proof fn lemma_vote_preserves_invariants(
    s: Seq<SessionView>,
    target: u64,
    voter: u64,
    threshold: u32,
    now: i64,
    e: Eligibility,
)
    requires
        sessions_wf(s),
    ensures
        sessions_wf(vote_step(s, target, voter, threshold, now, e).0),
{
    if validate_spec(e, voter, target) is None {
        if !has_session(s, target) {
            let ns = SessionView {
                target_id: target,
                expiry: (now + VOTE_WINDOW_SECONDS) as i64,
                voters: seq![voter],
                threshold,
            };
            assert(ns.wf());
            lemma_wf_push(s, ns);
        } else {
            let i = session_index(s, target);
            assert(0 <= i < s.len() && s[i].target_id == target);
            let cur = s[i];
            if now > cur.expiry {
                let ns = SessionView {
                    target_id: target,
                    expiry: (now + VOTE_WINDOW_SECONDS) as i64,
                    voters: seq![voter],
                    threshold: cur.threshold,
                };
                assert(ns.wf());
                lemma_wf_update(s, i, ns);
            } else if cur.voters.contains(voter) {
            } else {
                let voters2 = cur.voters.push(voter);
                let ns = SessionView {
                    target_id: cur.target_id,
                    expiry: cur.expiry,
                    voters: voters2,
                    threshold: cur.threshold,
                };
                assert(ns.wf()) by {
                    assert forall|a: int, b: int| 0 <= a < b < voters2.len() implies voters2[a]
                        != voters2[b] by {
                        if b == voters2.len() - 1 {
                            assert(!cur.voters.contains(voter));
                            assert(cur.voters[a] != voter);
                        }
                    }
                }
                if voters2.len() == cur.threshold as nat {
                    lemma_wf_remove(s, i);
                } else {
                    lemma_wf_update(s, i, ns);
                }
            }
        }
    }
}

/// A vote cast strictly after the expiry opens a fresh window: the voters are
/// reset to the singleton holding only that voter — the prior voters are
/// discarded, not kept — and the expiry moves one whole window past `now`.
pub proof fn lemma_expired_vote_resets(
    s: Seq<SessionView>,
    target: u64,
    voter: u64,
    threshold: u32,
    now: i64,
    e: Eligibility,
)
    requires
        sessions_wf(s),
        validate_spec(e, voter, target) is None,
        has_session(s, target),
        now > session_of(s, target).expiry,
        now + VOTE_WINDOW_SECONDS <= i64::MAX,
    ensures
        ({
            let ns = vote_step(s, target, voter, threshold, now, e).0;
            &&& has_session(ns, target)
            &&& session_of(ns, target).voters == seq![voter]
            &&& session_of(ns, target).expiry == now + VOTE_WINDOW_SECONDS
            &&& session_of(ns, target).threshold == session_of(s, target).threshold
            &&& vote_step(s, target, voter, threshold, now, e).1 == (VoteOutcome::Progress {
                votes: 1,
                threshold: session_of(s, target).threshold,
            })
        }),
{
    let i = session_index(s, target);
    assert(0 <= i < s.len() && s[i].target_id == target);
    let cur = s[i];
    let fresh = SessionView {
        target_id: target,
        expiry: (now + VOTE_WINDOW_SECONDS) as i64,
        voters: seq![voter],
        threshold: cur.threshold,
    };
    let ns = vote_step(s, target, voter, threshold, now, e).0;
    assert(ns == s.update(i, fresh));
    lemma_wf_update(s, i, fresh);
    lemma_session_index_unique(ns, i);
}

/// The strict single-winner threshold scheme, one step at a time: an eligible,
/// unseen voter inside the window either completes the threshold — the session
/// resolves and leaves the registry in the same step, so overshoot is
/// impossible — or leaves the session open with exactly one voter more.
pub proof fn lemma_threshold_resolution(
    s: Seq<SessionView>,
    target: u64,
    voter: u64,
    threshold: u32,
    now: i64,
    e: Eligibility,
)
    requires
        sessions_wf(s),
        validate_spec(e, voter, target) is None,
        has_session(s, target),
        now <= session_of(s, target).expiry,
        !session_of(s, target).voters.contains(voter),
    ensures
        ({
            let ns = vote_step(s, target, voter, threshold, now, e).0;
            let out = vote_step(s, target, voter, threshold, now, e).1;
            let cur = session_of(s, target);
            &&& (cur.voters.len() + 1 == cur.threshold as nat ==> {
                &&& out == (VoteOutcome::Resolved { penalty_minutes: PENALTY_MINUTES })
                &&& !has_session(ns, target)
            })
            &&& (cur.voters.len() + 1 != cur.threshold as nat ==> {
                &&& has_session(ns, target)
                &&& session_of(ns, target).voters == cur.voters.push(voter)
                &&& session_of(ns, target).expiry == cur.expiry
                &&& out == (VoteOutcome::Progress {
                    votes: (cur.voters.len() + 1) as usize,
                    threshold: cur.threshold,
                })
            })
        }),
{
    let i = session_index(s, target);
    assert(0 <= i < s.len() && s[i].target_id == target);
    let cur = s[i];
    let voters2 = cur.voters.push(voter);
    let ns2 = SessionView {
        target_id: cur.target_id,
        expiry: cur.expiry,
        voters: voters2,
        threshold: cur.threshold,
    };
    if voters2.len() == cur.threshold as nat {
        lemma_wf_remove(s, i);
    } else {
        assert(ns2.wf()) by {
            assert forall|a: int, b: int| 0 <= a < b < voters2.len() implies voters2[a]
                != voters2[b] by {
                if b == voters2.len() - 1 {
                    assert(cur.voters[a] != voter);
                }
            }
        }
        lemma_wf_update(s, i, ns2);
        lemma_session_index_unique(s.update(i, ns2), i);
    }
}

} // verus!
