use ttc_bot::config::Config;
use ttc_bot::joblock::{AcquireOutcome, JobHandle, JobLock};
use ttc_bot::leaderboard::{lookup_ranks, rank_of_user, ranked, top_n, RankKey};
use ttc_bot::progress::ProgressReporter;
use ttc_bot::scan::{is_flagged, scan, scan_and_report, MessageRecord, ScanItem};
use ttc_bot::stats::{merge, merge_checked, ChannelResult, MessageStat};
use ttc_bot::votes::{validate, Eligibility, RejectReason, VoteOutcome, VoteRegistry};

fn ok_elig() -> Eligibility {
    Eligibility {
        voter_has_required_role: true,
        target_protected: false,
        target_excluded: false,
        target_penalized: false,
    }
}

fn stat(total: u64, flagged: u64) -> MessageStat {
    MessageStat {
        total_count: total,
        flagged_count: flagged,
    }
}

fn record(author: u64, content: &[u8]) -> ScanItem {
    ScanItem::Record(MessageRecord {
        author_id: author,
        content: content.to_vec(),
    })
}

fn two_source_results() -> Vec<ChannelResult> {
    vec![
        ChannelResult {
            source_id: 1,
            user_stats: vec![(101, stat(10, 2)), (102, stat(5, 0))],
            global_total: 15,
            global_flagged: 2,
        },
        ChannelResult {
            source_id: 2,
            user_stats: vec![(101, stat(3, 1))],
            global_total: 3,
            global_flagged: 1,
        },
    ]
}

#[test]
fn merge_two_sources() {
    let g = merge(&two_source_results());
    assert_eq!(g.global_total, 18);
    assert_eq!(g.global_flagged, 3);
    assert_eq!(g.get(101), Some(stat(13, 3)));
    assert_eq!(g.get(102), Some(stat(5, 0)));
    assert_eq!(g.get(103), None);
}

#[test]
fn merge_is_order_independent() {
    let third = ChannelResult {
        source_id: 3,
        user_stats: vec![(102, stat(7, 4)), (104, stat(1, 0))],
        global_total: 8,
        global_flagged: 4,
    };
    let mut forward = two_source_results();
    forward.push(third.clone());
    let mut backward = two_source_results();
    backward.push(third);
    backward.reverse();
    let mut rotated = vec![backward[1].clone()];
    rotated.push(backward[2].clone());
    rotated.push(backward[0].clone());
    let a = merge(&forward);
    let b = merge(&backward);
    let c = merge(&rotated);
    assert_eq!(a.global_total, b.global_total);
    assert_eq!(a.global_total, c.global_total);
    assert_eq!(a.global_flagged, b.global_flagged);
    assert_eq!(a.global_flagged, c.global_flagged);
    for user in [101u64, 102, 103, 104] {
        assert_eq!(a.get(user), b.get(user));
        assert_eq!(a.get(user), c.get(user));
    }
}

#[test]
fn checked_merge_accepts_or_reports_overflow() {
    let g = merge_checked(&two_source_results()).unwrap();
    assert_eq!(g.global_total, 18);
    let huge = vec![
        ChannelResult {
            source_id: 1,
            user_stats: vec![(1, stat(u64::MAX, 0))],
            global_total: u64::MAX,
            global_flagged: 0,
        },
        ChannelResult {
            source_id: 2,
            user_stats: vec![(2, stat(1, 0))],
            global_total: 1,
            global_flagged: 0,
        },
    ];
    assert!(merge_checked(&huge).is_none());
}

#[test]
fn merge_of_nothing_is_empty() {
    let g = merge(&Vec::new());
    assert_eq!(g.global_total, 0);
    assert_eq!(g.global_flagged, 0);
    assert_eq!(g.get(101), None);
}

#[test]
fn scan_counts_and_flags() {
    let items = vec![
        record(1, b":helpmeplz:"),
        record(1, b"hello there"),
        ScanItem::Faulty,
        record(2, b"abc :helpmeplz: def"),
    ];
    let cr = scan(7, &items);
    assert_eq!(cr.source_id, 7);
    assert_eq!(cr.global_total, 3);
    assert_eq!(cr.global_flagged, 2);
    assert_eq!(cr.get(1), Some(stat(2, 1)));
    assert_eq!(cr.get(2), Some(stat(1, 1)));
    assert_eq!(cr.get(3), None);
}

#[test]
fn scan_of_only_faulty_items_is_empty() {
    let items = vec![ScanItem::Faulty, ScanItem::Faulty];
    let cr = scan(9, &items);
    assert_eq!(cr.global_total, 0);
    assert_eq!(cr.global_flagged, 0);
}

#[test]
fn marker_detection_edges() {
    assert!(!is_flagged(&b"".to_vec()));
    assert!(is_flagged(&b":helpmeplz:".to_vec()));
    assert!(is_flagged(&b"x:helpmeplz:".to_vec()));
    assert!(is_flagged(&b":helpmeplz:x".to_vec()));
    assert!(!is_flagged(&b":helpmeplz".to_vec()));
    assert!(!is_flagged(&b"helpmeplz:".to_vec()));
    assert!(!is_flagged(&b": h e l p :".to_vec()));
}

#[test]
fn scan_then_merge_conserves_totals() {
    let a = scan(1, &vec![record(1, b":helpmeplz:"), record(2, b"hi")]);
    let b = scan(2, &vec![record(1, b"hi again")]);
    let g = merge(&vec![a, b]);
    assert_eq!(g.global_total, 3);
    assert_eq!(g.global_flagged, 1);
    assert_eq!(g.get(1), Some(stat(2, 1)));
    assert_eq!(g.get(2), Some(stat(1, 0)));
}

#[test]
fn rankings_of_two_users() {
    let g = merge(&two_source_results());
    // user 101: 13 messages, 3 flagged, about 23 percent.
    // user 102: 5 messages, 0 flagged, 0 percent.
    let by_flagged = ranked(&g, RankKey::ByFlagged);
    assert_eq!(by_flagged.len(), 2);
    assert_eq!(by_flagged[0].user_id, 101);
    assert_eq!(by_flagged[0].rank, 1);
    assert_eq!(by_flagged[1].user_id, 102);
    assert_eq!(by_flagged[1].rank, 2);

    let by_total = ranked(&g, RankKey::ByTotal);
    assert_eq!(by_total[0].user_id, 101);
    assert_eq!(by_total[1].user_id, 102);

    let by_pct = ranked(&g, RankKey::ByPercentage);
    assert_eq!(by_pct[0].user_id, 101);
    assert_eq!(by_pct[1].user_id, 102);
}

#[test]
fn ranking_is_stable_on_ties() {
    let g = merge(&vec![ChannelResult {
        source_id: 1,
        user_stats: vec![(11, stat(4, 1)), (22, stat(4, 1)), (33, stat(4, 1))],
        global_total: 12,
        global_flagged: 3,
    }]);
    // All three tie on every key: the original order must be kept.
    for key in [RankKey::ByFlagged, RankKey::ByTotal, RankKey::ByPercentage] {
        let view = ranked(&g, key);
        assert_eq!(view[0].user_id, 11);
        assert_eq!(view[1].user_id, 22);
        assert_eq!(view[2].user_id, 33);
    }
}

#[test]
fn zero_total_user_ranks_last_by_percentage() {
    let g = merge(&vec![ChannelResult {
        source_id: 1,
        user_stats: vec![(1, stat(0, 0)), (2, stat(10, 1)), (3, stat(2, 1))],
        global_total: 12,
        global_flagged: 2,
    }]);
    let view = ranked(&g, RankKey::ByPercentage);
    // 50 percent, then 10 percent, then the undefined percentage last.
    assert_eq!(view[0].user_id, 3);
    assert_eq!(view[1].user_id, 2);
    assert_eq!(view[2].user_id, 1);
    assert_eq!(view[2].rank, 3);
}

#[test]
fn top_n_slices_or_reports_insufficient_data() {
    let g = merge(&two_source_results());
    let view = ranked(&g, RankKey::ByTotal);
    assert!(top_n(&view, 3).is_none());
    let two = top_n(&view, 2).unwrap();
    assert_eq!(two.len(), 2);
    assert_eq!(two[0].user_id, 101);
    let one = top_n(&view, 1).unwrap();
    assert_eq!(one.len(), 1);
    assert_eq!(one[0].user_id, 101);
    let none_needed = top_n(&view, 0).unwrap();
    assert_eq!(none_needed.len(), 0);
}

#[test]
fn rank_lookup_across_views() {
    let g = merge(&two_source_results());
    let view = ranked(&g, RankKey::ByFlagged);
    assert_eq!(rank_of_user(&view, 101), Some(1));
    assert_eq!(rank_of_user(&view, 102), Some(2));
    assert_eq!(rank_of_user(&view, 999), None);

    let ranks = lookup_ranks(&g, 102).unwrap();
    assert_eq!(ranks.by_flagged, 2);
    assert_eq!(ranks.by_total, 2);
    assert_eq!(ranks.by_percentage, 2);
    assert!(lookup_ranks(&g, 999).is_none());
}

#[test]
fn job_lock_single_flight() {
    let mut lock = JobLock::new();
    assert_eq!(lock.status(), JobHandle::Idle);
    assert_eq!(lock.try_acquire(5, 42), AcquireOutcome::Acquired);
    // A second run is turned away with the first run's report reference.
    assert_eq!(
        lock.try_acquire(3, 99),
        AcquireOutcome::AlreadyRunning { report_ref: 42 }
    );
    lock.record_progress(2);
    assert_eq!(
        lock.status(),
        JobHandle::Running {
            completed: 2,
            total: 5,
            report_ref: 42
        }
    );
    lock.release();
    assert_eq!(lock.status(), JobHandle::Idle);
    // Once released, the very next acquire succeeds.
    assert_eq!(lock.try_acquire(1, 7), AcquireOutcome::Acquired);
}

#[test]
fn worker_scans_and_reports_once() {
    let mut reporter = ProgressReporter::new(2);
    let items = vec![record(5, b"a :helpmeplz: b"), ScanItem::Faulty];
    let (cr, pair) = scan_and_report(3, &items, &mut reporter);
    assert_eq!(pair, (1, 2));
    assert_eq!(cr.source_id, 3);
    assert_eq!(cr.global_total, 1);
    assert_eq!(cr.global_flagged, 1);
    let (cr2, pair2) = scan_and_report(4, &vec![], &mut reporter);
    assert_eq!(pair2, (2, 2));
    assert_eq!(cr2.global_total, 0);
}

#[test]
fn progress_reporter_counts_up() {
    let mut p = ProgressReporter::new(3);
    assert_eq!(p.snapshot(), (0, 3));
    assert_eq!(p.increment(), (1, 3));
    assert_eq!(p.increment(), (2, 3));
    assert_eq!(p.increment(), (3, 3));
}

#[test]
fn eligibility_gate_reasons() {
    let e = ok_elig();
    assert_eq!(validate(e, 20, 10), None);
    assert_eq!(
        validate(
            Eligibility {
                voter_has_required_role: false,
                ..e
            },
            20,
            10
        ),
        Some(RejectReason::InsufficientPermission)
    );
    assert_eq!(validate(e, 10, 10), Some(RejectReason::SelfTarget));
    assert_eq!(
        validate(
            Eligibility {
                target_protected: true,
                ..e
            },
            20,
            10
        ),
        Some(RejectReason::ProtectedTarget)
    );
    assert_eq!(
        validate(
            Eligibility {
                target_excluded: true,
                ..e
            },
            20,
            10
        ),
        Some(RejectReason::ExcludedTarget)
    );
    assert_eq!(
        validate(
            Eligibility {
                target_penalized: true,
                ..e
            },
            20,
            10
        ),
        Some(RejectReason::AlreadyPenalized)
    );
}

#[test]
fn rejected_vote_mutates_nothing() {
    let mut reg = VoteRegistry::new();
    let bad = Eligibility {
        voter_has_required_role: false,
        ..ok_elig()
    };
    let out = reg.vote(10, 20, 3, 1000, bad);
    assert_eq!(
        out,
        VoteOutcome::Rejected {
            reason: RejectReason::InsufficientPermission
        }
    );
    assert_eq!(reg.session_count(), 0);
    assert_eq!(reg.get_progress(10), None);
}

#[test]
fn three_votes_resolve_a_session() {
    let mut reg = VoteRegistry::new();
    let e = ok_elig();
    let target = 10;
    assert_eq!(
        reg.vote(target, 20, 3, 1000, e),
        VoteOutcome::Progress {
            votes: 1,
            threshold: 3
        }
    );
    assert_eq!(
        reg.vote(target, 30, 3, 1010, e),
        VoteOutcome::Progress {
            votes: 2,
            threshold: 3
        }
    );
    // The same voter twice: rejected as duplicate, progress unchanged.
    assert_eq!(
        reg.vote(target, 20, 3, 1020, e),
        VoteOutcome::Duplicate {
            votes: 2,
            threshold: 3
        }
    );
    assert_eq!(reg.get_progress(target), Some((2, 3)));
    // The third distinct voter resolves and removes the session.
    assert_eq!(
        reg.vote(target, 40, 3, 1030, e),
        VoteOutcome::Resolved {
            penalty_minutes: ttc_bot::votes::PENALTY_MINUTES
        }
    );
    assert_eq!(reg.get_progress(target), None);
    assert_eq!(reg.session_count(), 0);
}

#[test]
fn threshold_two_resolves_on_second_voter() {
    let mut reg = VoteRegistry::new();
    let e = ok_elig();
    assert_eq!(
        reg.vote(10, 20, 2, 1000, e),
        VoteOutcome::Progress {
            votes: 1,
            threshold: 2
        }
    );
    assert_eq!(
        reg.vote(10, 30, 2, 1001, e),
        VoteOutcome::Resolved {
            penalty_minutes: 30
        }
    );
    assert_eq!(reg.session_count(), 0);
}

#[test]
fn late_vote_resets_the_window() {
    let mut reg = VoteRegistry::new();
    let e = ok_elig();
    let t0 = 1000;
    // Session opens with voter 20; the window closes at t0 + 300.
    assert_eq!(
        reg.vote(10, 20, 3, t0, e),
        VoteOutcome::Progress {
            votes: 1,
            threshold: 3
        }
    );
    // A vote 360 seconds later lands strictly after the expiry: fresh window,
    // voter 20's earlier vote is discarded, not kept.
    assert_eq!(
        reg.vote(10, 30, 3, t0 + 360, e),
        VoteOutcome::Progress {
            votes: 1,
            threshold: 3
        }
    );
    // Voter 20 can vote again in the fresh window.
    assert_eq!(
        reg.vote(10, 20, 3, t0 + 400, e),
        VoteOutcome::Progress {
            votes: 2,
            threshold: 3
        }
    );
    assert_eq!(reg.get_progress(10), Some((2, 3)));
}

#[test]
fn vote_exactly_at_expiry_still_counts() {
    let mut reg = VoteRegistry::new();
    let e = ok_elig();
    let t0 = 1000;
    reg.vote(10, 20, 3, t0, e);
    // The window is open through its last second: no reset at t0 + 300.
    assert_eq!(
        reg.vote(10, 30, 3, t0 + 300, e),
        VoteOutcome::Progress {
            votes: 2,
            threshold: 3
        }
    );
}

#[test]
fn sessions_for_different_targets_are_independent() {
    let mut reg = VoteRegistry::new();
    let e = ok_elig();
    reg.vote(10, 20, 2, 1000, e);
    reg.vote(11, 20, 2, 1000, e);
    assert_eq!(reg.session_count(), 2);
    assert_eq!(reg.get_progress(10), Some((1, 2)));
    assert_eq!(reg.get_progress(11), Some((1, 2)));
    assert_eq!(
        reg.vote(11, 30, 2, 1001, e),
        VoteOutcome::Resolved {
            penalty_minutes: 30
        }
    );
    assert_eq!(reg.get_progress(10), Some((1, 2)));
    assert_eq!(reg.get_progress(11), None);
}

#[test]
fn vote_now_uses_the_real_clock() {
    let mut reg = VoteRegistry::new();
    let out = reg.vote_now(10, 20, 3, ok_elig());
    assert_eq!(
        out,
        Some(VoteOutcome::Progress {
            votes: 1,
            threshold: 3
        })
    );
    assert_eq!(reg.get_progress(10), Some((1, 3)));
}

#[test]
fn config_holds_plain_values() {
    let c = Config {
        support_channel: 1,
        conveyance_channels: vec![2, 3],
        conveyance_blacklisted_channels: vec![],
        welcome_channel: 4,
        verified_role: 5,
        moderator_role: 6,
        welcome_messages: vec![String::from("welcome")],
    };
    assert_eq!(c.support_channel, 1);
    assert_eq!(c.conveyance_channels.len(), 2);
    assert_eq!(c.moderator_role, 6);
    assert_eq!(c.welcome_messages[0], "welcome");
}
