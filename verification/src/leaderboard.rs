//! Ranked views over the merged statistics: by flagged count, by total count,
//! and by flagged percentage, each a stable descending sort that never mutates
//! the statistics. Percentages are compared by cross-multiplication, so a user
//! with no messages — whose percentage is undefined — is never divided by and
//! simply ranks last. A top-N slice and a rank lookup across all three views
//! round the component out.

use vstd::prelude::*;
use vstd::seq_lib::group_to_multiset_ensures;
use crate::stats::{keys_unique, lookup, GlobalStats, MessageStat};

verus! {

/// One row of a ranked view: the user, both metrics, and the 1-based rank.
#[derive(Clone, Copy, PartialEq, Eq, Structural, Debug)]
pub struct LeaderboardEntry {
    pub user_id: u64,
    pub total_count: u64,
    pub flagged_count: u64,
    pub rank: usize,
}

/// Which of the three views to derive.
#[derive(Clone, Copy, PartialEq, Eq, Structural, Debug)]
pub enum RankKey {
    ByFlagged,
    ByTotal,
    ByPercentage,
}

/// `a`'s flagged percentage is strictly higher than `b`'s. An undefined
/// percentage — a total of zero — is lower than every defined one.
pub open spec fn pct_gt(a: LeaderboardEntry, b: LeaderboardEntry) -> bool {
    ||| (b.total_count == 0 && a.total_count > 0)
    ||| (a.total_count > 0 && b.total_count > 0 && a.flagged_count * b.total_count
        > b.flagged_count * a.total_count)
}

/// The two percentages are equal, or both undefined.
pub open spec fn pct_eq(a: LeaderboardEntry, b: LeaderboardEntry) -> bool {
    ||| (a.total_count == 0 && b.total_count == 0)
    ||| (a.total_count > 0 && b.total_count > 0 && a.flagged_count * b.total_count
        == b.flagged_count * a.total_count)
}

pub open spec fn key_gt(k: RankKey, a: LeaderboardEntry, b: LeaderboardEntry) -> bool {
    match k {
        RankKey::ByFlagged => a.flagged_count > b.flagged_count,
        RankKey::ByTotal => a.total_count > b.total_count,
        RankKey::ByPercentage => pct_gt(a, b),
    }
}

pub open spec fn key_eq(k: RankKey, a: LeaderboardEntry, b: LeaderboardEntry) -> bool {
    match k {
        RankKey::ByFlagged => a.flagged_count == b.flagged_count,
        RankKey::ByTotal => a.total_count == b.total_count,
        RankKey::ByPercentage => pct_eq(a, b),
    }
}

pub open spec fn key_ge(k: RankKey, a: LeaderboardEntry, b: LeaderboardEntry) -> bool {
    key_gt(k, a, b) || key_eq(k, a, b)
}

/// The strict order the sort establishes: higher key first, ties broken by the
/// position held in the `rank` field while sorting.
pub open spec fn precedes(k: RankKey, a: LeaderboardEntry, b: LeaderboardEntry) -> bool {
    key_gt(k, a, b) || (key_eq(k, a, b) && a.rank < b.rank)
}

pub open spec fn sorted_by(k: RankKey, s: Seq<LeaderboardEntry>) -> bool {
    forall|i: int, j: int| 0 <= i < j < s.len() ==> precedes(k, s[i], s[j])
}

/// Descending by key, ties in any order.
pub open spec fn key_sorted(k: RankKey, s: Seq<LeaderboardEntry>) -> bool {
    forall|i: int, j: int| 0 <= i < j < s.len() ==> key_ge(k, s[i], s[j])
}

proof fn lemma_ratio_trans_ge(fa: int, ta: int, fb: int, tb: int, fc: int, tc: int)
    by (nonlinear_arith)
    requires
        ta > 0,
        tb > 0,
        tc > 0,
        fa * tb >= fb * ta,
        fb * tc >= fc * tb,
    ensures
        fa * tc >= fc * ta,
{
}

proof fn lemma_ratio_trans_gt(fa: int, ta: int, fb: int, tb: int, fc: int, tc: int)
    by (nonlinear_arith)
    requires
        ta > 0,
        tb > 0,
        tc > 0,
        fa * tb >= fb * ta,
        fb * tc >= fc * tb,
        fa * tb > fb * ta || fb * tc > fc * tb,
    ensures
        fa * tc > fc * ta,
{
}

/// Any two entries with different tiebreak positions are ordered one way or
/// the other: the sort's order is total.
proof fn lemma_precedes_total(k: RankKey, a: LeaderboardEntry, b: LeaderboardEntry)
    requires
        a.rank != b.rank,
    ensures
        precedes(k, a, b) || precedes(k, b, a),
{
}

/// The key relations are exclusive: never strictly above and equal at once.
proof fn lemma_key_exclusive(k: RankKey, a: LeaderboardEntry, b: LeaderboardEntry)
    ensures
        !(key_gt(k, a, b) && key_eq(k, a, b)),
{
}

/// The sort's order is transitive.
proof fn lemma_precedes_trans(
    k: RankKey,
    a: LeaderboardEntry,
    b: LeaderboardEntry,
    c: LeaderboardEntry,
)
    requires
        precedes(k, a, b),
        precedes(k, b, c),
    ensures
        precedes(k, a, c),
{
    match k {
        RankKey::ByFlagged => {},
        RankKey::ByTotal => {},
        RankKey::ByPercentage => {
            let (fa, ta) = (a.flagged_count as int, a.total_count as int);
            let (fb, tb) = (b.flagged_count as int, b.total_count as int);
            let (fc, tc) = (c.flagged_count as int, c.total_count as int);
            if ta > 0 && tb > 0 && tc > 0 {
                if pct_gt(a, b) || pct_gt(b, c) {
                    lemma_ratio_trans_gt(fa, ta, fb, tb, fc, tc);
                } else {
                    lemma_ratio_trans_ge(fa, ta, fb, tb, fc, tc);
                }
            }
        },
    }
}

/// The entry a statistics row becomes before sorting: the row's values, with
/// the row's position as the tiebreak.
pub open spec fn entry_of(e: Seq<(u64, MessageStat)>, i: int) -> LeaderboardEntry {
    LeaderboardEntry {
        user_id: e[i].0,
        total_count: e[i].1.total_count,
        flagged_count: e[i].1.flagged_count,
        rank: i as usize,
    }
}

/// The position a user's row holds in the statistics.
pub open spec fn entry_index_of(e: Seq<(u64, MessageStat)>, u: u64) -> int {
    choose|i: int| 0 <= i < e.len() && e[i].0 == u
}

/// What `ranked` promises of a view `out` derived from the rows `e`: one row
/// per user, ranks numbered from one, descending by key, every row's metrics
/// taken verbatim from `e`, and ties left in the rows' original order — a
/// stable descending sort.
pub open spec fn is_ranking(k: RankKey, e: Seq<(u64, MessageStat)>, out: Seq<
    LeaderboardEntry,
>) -> bool {
    &&& out.len() == e.len()
    &&& forall|i: int| 0 <= i < out.len() ==> (#[trigger] out[i]).rank == i + 1
    &&& key_sorted(k, out)
    &&& forall|i: int, j: int| 0 <= i < j < out.len() ==> out[i].user_id != out[j].user_id
    &&& forall|i: int|
        0 <= i < out.len() ==> lookup(e, (#[trigger] out[i]).user_id) == Some(
            MessageStat { total_count: out[i].total_count, flagged_count: out[i].flagged_count },
        )
    &&& forall|u: u64|
        #[trigger] lookup(e, u) is Some ==> exists|i: int| 0 <= i < out.len() && out[i].user_id
            == u
    &&& forall|i: int, j: int|
        0 <= i < j < out.len() && key_eq(k, out[i], out[j]) ==> entry_index_of(
            e,
            out[i].user_id,
        ) < entry_index_of(e, out[j].user_id)
}

fn key_gt_exec(k: RankKey, a: &LeaderboardEntry, b: &LeaderboardEntry) -> (r: bool)
    ensures
        r == key_gt(k, *a, *b),
{
    match k {
        RankKey::ByFlagged => a.flagged_count > b.flagged_count,
        RankKey::ByTotal => a.total_count > b.total_count,
        RankKey::ByPercentage => {
            if b.total_count == 0 {
                a.total_count > 0
            } else if a.total_count == 0 {
                false
            } else {
                proof {
                    assert((a.flagged_count as int) * (b.total_count as int) <= u128::MAX
                        && (b.flagged_count as int) * (a.total_count as int) <= u128::MAX)
                        by (nonlinear_arith)
                        requires
                            a.flagged_count <= u64::MAX,
                            b.total_count <= u64::MAX,
                            b.flagged_count <= u64::MAX,
                            a.total_count <= u64::MAX,
                    ;
                }
                (a.flagged_count as u128) * (b.total_count as u128) > (b.flagged_count as u128)
                    * (a.total_count as u128)
            }
        },
    }
}

fn key_eq_exec(k: RankKey, a: &LeaderboardEntry, b: &LeaderboardEntry) -> (r: bool)
    ensures
        r == key_eq(k, *a, *b),
{
    match k {
        RankKey::ByFlagged => a.flagged_count == b.flagged_count,
        RankKey::ByTotal => a.total_count == b.total_count,
        RankKey::ByPercentage => {
            if a.total_count == 0 || b.total_count == 0 {
                a.total_count == 0 && b.total_count == 0
            } else {
                proof {
                    assert((a.flagged_count as int) * (b.total_count as int) <= u128::MAX
                        && (b.flagged_count as int) * (a.total_count as int) <= u128::MAX)
                        by (nonlinear_arith)
                        requires
                            a.flagged_count <= u64::MAX,
                            b.total_count <= u64::MAX,
                            b.flagged_count <= u64::MAX,
                            a.total_count <= u64::MAX,
                    ;
                }
                (a.flagged_count as u128) * (b.total_count as u128) == (b.flagged_count as u128)
                    * (a.total_count as u128)
            }
        },
    }
}

fn precedes_exec(k: RankKey, a: &LeaderboardEntry, b: &LeaderboardEntry) -> (r: bool)
    ensures
        r == precedes(k, *a, *b),
{
    if key_gt_exec(k, a, b) {
        true
    } else {
        key_eq_exec(k, a, b) && a.rank < b.rank
    }
}

fn swap_entries(v: &mut Vec<LeaderboardEntry>, a: usize, b: usize)
    requires
        a < old(v)@.len(),
        b < old(v)@.len(),
    ensures
        final(v)@ == old(v)@.update(a as int, old(v)@[b as int]).update(
            b as int,
            old(v)@[a as int],
        ),
{
    let ea = v[a];
    let eb = v[b];
    let sa = &mut v[a];
    *sa = eb;
    let sb = &mut v[b];
    *sb = ea;
}

/// A swap leaves the multiset of elements alone.
proof fn lemma_swap_multiset(s: Seq<LeaderboardEntry>, a: int, b: int)
    requires
        0 <= a < s.len(),
        0 <= b < s.len(),
        a != b,
    ensures
        s.update(a, s[b]).update(b, s[a]).to_multiset() == s.to_multiset(),
{
    broadcast use group_to_multiset_ensures;
    broadcast use vstd::seq_lib::to_multiset_update;
    broadcast use vstd::multiset::group_multiset_axioms;

    let s1 = s.update(a, s[b]);
    let s2 = s1.update(b, s[a]);
    assert(s1[b] == s[b]);
    assert(s.contains(s[a]));
    assert(s.to_multiset().count(s[a]) > 0);
    assert(s2.to_multiset() =~= s.to_multiset());
}

/// Stable insertion sort under the strict order `precedes`: with pairwise
/// distinct tiebreak positions the result is fully ordered, and it holds the
/// same elements.
#[verifier::loop_isolation(false)]
fn sort_entries(v: &mut Vec<LeaderboardEntry>, k: RankKey)
    requires
        forall|i: int, j: int|
            0 <= i < j < old(v)@.len() ==> (#[trigger] old(v)@[i]).rank != (#[trigger] old(
                v,
            )@[j]).rank,
    ensures
        final(v)@.len() == old(v)@.len(),
        final(v)@.to_multiset() == old(v)@.to_multiset(),
        sorted_by(k, final(v)@),
{
    let n = v.len();
    let mut i: usize = 1;
    while i < n
        invariant
            1 <= i <= n || n == 0,
            v@.len() == n,
            v@.to_multiset() == old(v)@.to_multiset(),
            forall|a: int, b: int|
                0 <= a < b < n ==> (#[trigger] v@[a]).rank != (#[trigger] v@[b]).rank,
            forall|a: int, b: int| 0 <= a < b < i ==> precedes(k, v@[a], v@[b]),
        decreases n - i,
    {
        let mut j: usize = i;
        while j > 0 && precedes_exec(k, &v[j], &v[j - 1])
            invariant
                0 <= j <= i < n,
                v@.len() == n,
                v@.to_multiset() == old(v)@.to_multiset(),
                forall|a: int, b: int|
                    0 <= a < b < n ==> (#[trigger] v@[a]).rank != (#[trigger] v@[b]).rank,
                forall|a: int, b: int| 0 <= a < b <= i && b != j ==> precedes(k, v@[a], v@[b]),
            decreases j,
        {
            let ghost before = v@;
            swap_entries(v, j - 1, j);
            proof {
                lemma_swap_multiset(before, j as int - 1, j as int);
            }
            j = j - 1;
        }
        proof {
            if j > 0 {
                assert(!precedes(k, v@[j as int], v@[j as int - 1]));
                assert(v@[j as int - 1].rank != v@[j as int].rank);
                lemma_precedes_total(k, v@[j as int - 1], v@[j as int]);
                assert(precedes(k, v@[j as int - 1], v@[j as int]));
            }
            assert forall|a: int, b: int| 0 <= a < b < i + 1 implies precedes(k, v@[a], v@[b]) by {
                if b == j && a < j - 1 {
                    assert(precedes(k, v@[a], v@[j - 1]));
                    lemma_precedes_trans(k, v@[a], v@[j as int - 1], v@[j as int]);
                }
            }
        }
        i = i + 1;
    }
    proof {
        if n == 0 {
            assert(sorted_by(k, v@));
        }
    }
}

/// With distinct keys, a row's position is what `entry_index_of` picks.
proof fn lemma_entry_index_unique(e: Seq<(u64, MessageStat)>, i: int)
    requires
        keys_unique(e),
        0 <= i < e.len(),
    ensures
        entry_index_of(e, e[i].0) == i,
{
    assert(0 <= i < e.len() && e[i].0 == e[i].0);
    let j = entry_index_of(e, e[i].0);
    if j < i {
        assert(e[j].0 != e[i].0);
    } else if j > i {
        assert(e[i].0 != e[j].0);
    }
}

/// Derives one ranked view from the merged statistics, never mutating them:
/// a stable descending sort under the chosen key, with ranks numbered from
/// one. See `is_ranking` for everything the view is pinned to.
#[verifier::loop_isolation(false)]
pub fn ranked(stats: &GlobalStats, k: RankKey) -> (out: Vec<LeaderboardEntry>)
    requires
        stats.wf(),
    ensures
        is_ranking(k, stats.user_stats@, out@),
{
    let ghost e = stats.user_stats@;
    let n = stats.user_stats.len();
    let mut work: Vec<LeaderboardEntry> = Vec::new();
    let mut i: usize = 0;
    while i < n
        invariant
            i <= n,
            work@.len() == i,
            forall|j: int| 0 <= j < i ==> #[trigger] work@[j] == entry_of(e, j),
        decreases n - i,
    {
        let row = stats.user_stats[i];
        work.push(
            LeaderboardEntry {
                user_id: row.0,
                total_count: row.1.total_count,
                flagged_count: row.1.flagged_count,
                rank: i,
            },
        );
        i = i + 1;
    }
    let ghost w0 = work@;
    proof {
        assert(forall|a: int, b: int|
            0 <= a < b < w0.len() ==> (#[trigger] w0[a]).rank != (#[trigger] w0[b]).rank);
    }
    sort_entries(&mut work, k);
    let ghost w1 = work@;
    proof {
        broadcast use group_to_multiset_ensures;

        // Every sorted element is some original row, and vice versa.
        assert forall|p: int| #![trigger w1[p]] 0 <= p < w1.len() implies exists|q: int|
            0 <= q < e.len() && w1[p] == #[trigger] entry_of(e, q) by {
            assert(w1.contains(w1[p]));
            assert(w0.to_multiset().count(w1[p]) > 0);
            assert(w0.contains(w1[p]));
            let q = choose|q: int| 0 <= q < w0.len() && w0[q] == w1[p];
            assert(w1[p] == entry_of(e, q));
        }
        assert(w0.no_duplicates());
        w0.lemma_multiset_has_no_duplicates();
        assert forall|x: LeaderboardEntry| w1.to_multiset().contains(x) implies w1.to_multiset()
            .count(x) == 1 by {
            assert(w0.to_multiset().contains(x));
        }
        w1.lemma_multiset_has_no_duplicates_conv();
    }
    // Number the ranks from one, in place.
    let m = work.len();
    let mut p: usize = 0;
    while p < m
        invariant
            p <= m,
            m == w1.len(),
            work@.len() == m,
            forall|j: int|
                0 <= j < p ==> (#[trigger] work@[j]).user_id == w1[j].user_id && work@[j].total_count
                    == w1[j].total_count && work@[j].flagged_count == w1[j].flagged_count
                    && work@[j].rank == j + 1,
            forall|j: int| p <= j < m ==> #[trigger] work@[j] == w1[j],
        decreases m - p,
    {
        let cur = work[p];
        let slot = &mut work[p];
        *slot = LeaderboardEntry {
            user_id: cur.user_id,
            total_count: cur.total_count,
            flagged_count: cur.flagged_count,
            rank: p + 1,
        };
        p = p + 1;
    }
    let ghost w2 = work@;
    proof {
        // The key relations read only the metrics, which renumbering kept.
        assert forall|a: int, b: int| 0 <= a < b < w2.len() implies key_ge(k, w2[a], w2[b])
            && (key_eq(k, w2[a], w2[b]) ==> key_eq(k, w1[a], w1[b])) by {
            assert(precedes(k, w1[a], w1[b]));
        }
        // Each output row is a statistics row, read verbatim.
        assert forall|p2: int|
            0 <= p2 < w2.len() implies lookup(e, (#[trigger] w2[p2]).user_id) == Some(
            MessageStat {
                total_count: w2[p2].total_count,
                flagged_count: w2[p2].flagged_count,
            },
        ) by {
            let q = choose|q: int| 0 <= q < e.len() && w1[p2] == entry_of(e, q);
            crate::stats::lemma_lookup_index(e, q);
        }
        // Distinct users: distinct rows hold distinct keys.
        assert forall|a: int, b: int| 0 <= a < b < w2.len() implies w2[a].user_id
            != w2[b].user_id by {
            let qa = choose|q: int| 0 <= q < e.len() && w1[a] == entry_of(e, q);
            let qb = choose|q: int| 0 <= q < e.len() && w1[b] == entry_of(e, q);
            assert(w1[a] != w1[b]);
            if qa != qb {
                assert(e[qa].0 != e[qb].0);
            }
        }
        // Completeness: every user of the statistics appears.
        assert forall|u: u64| #[trigger] lookup(e, u) is Some implies exists|i2: int|
            0 <= i2 < w2.len() && w2[i2].user_id == u by {
            broadcast use group_to_multiset_ensures;

            crate::stats::lemma_lookup_exists(e, u);
            let q = choose|q: int| 0 <= q < e.len() && e[q].0 == u;
            assert(w0[q] == entry_of(e, q));
            assert(w0.contains(w0[q]));
            assert(w1.to_multiset().count(w0[q]) > 0);
            assert(w1.contains(w0[q]));
            let p2 = choose|p2: int| 0 <= p2 < w1.len() && w1[p2] == w0[q];
            assert(w2[p2].user_id == u);
        }
        // Stability: equal keys stay in the rows' original order.
        assert forall|a: int, b: int|
            0 <= a < b < w2.len() && key_eq(k, w2[a], w2[b]) implies entry_index_of(
            e,
            w2[a].user_id,
        ) < entry_index_of(e, w2[b].user_id) by {
            lemma_key_exclusive(k, w1[a], w1[b]);
            assert(precedes(k, w1[a], w1[b]));
            assert(w1[a].rank < w1[b].rank);
            let qa = choose|q: int| 0 <= q < e.len() && w1[a] == entry_of(e, q);
            let qb = choose|q: int| 0 <= q < e.len() && w1[b] == entry_of(e, q);
            lemma_entry_index_unique(e, qa);
            lemma_entry_index_unique(e, qb);
        }
    }
    work
}

/// The first `n` rows of a view, or `None` when fewer than `n` rows exist —
/// the insufficient-data signal, never an out-of-range read.
#[verifier::loop_isolation(false)]
pub fn top_n(view: &Vec<LeaderboardEntry>, n: usize) -> (r: Option<Vec<LeaderboardEntry>>)
    ensures
        match r {
            Some(v) => n <= view@.len() && v@ == view@.take(n as int),
            None => view@.len() < n,
        },
{
    if view.len() < n {
        return None;
    }
    let mut out: Vec<LeaderboardEntry> = Vec::new();
    let mut i: usize = 0;
    while i < n
        invariant
            i <= n <= view@.len(),
            out@.len() == i,
            forall|j: int| 0 <= j < i ==> #[trigger] out@[j] == view@[j],
        decreases n - i,
    {
        out.push(view[i]);
        i = i + 1;
    }
    proof {
        assert(out@ =~= view@.take(n as int));
    }
    Some(out)
}

/// Where `user` stands in one view: the row's 1-based rank, if the user is in
/// the view at all.
#[verifier::loop_isolation(false)]
pub fn rank_of_user(view: &Vec<LeaderboardEntry>, user: u64) -> (r: Option<usize>)
    ensures
        match r {
            Some(p) => exists|i: int|
                0 <= i < view@.len() && (#[trigger] view@[i]).user_id == user && p == view@[i].rank,
            None => forall|i: int| 0 <= i < view@.len() ==> (#[trigger] view@[i]).user_id != user,
        },
{
    let n = view.len();
    let mut i: usize = 0;
    while i < n
        invariant
            i <= n == view@.len(),
            forall|j: int| 0 <= j < i ==> (#[trigger] view@[j]).user_id != user,
        decreases n - i,
    {
        if view[i].user_id == user {
            return Some(view[i].rank);
        }
        i = i + 1;
    }
    None
}

/// A user's standing across all three views at once.
#[derive(Clone, Copy, PartialEq, Eq, Structural, Debug)]
pub struct UserRanks {
    pub by_flagged: usize,
    pub by_total: usize,
    pub by_percentage: usize,
}

/// Looks one user up across all three views simultaneously. `Some` exactly for
/// the users the statistics hold; each rank is the user's row in a view that
/// satisfies `is_ranking` for its key.
pub fn lookup_ranks(stats: &GlobalStats, user: u64) -> (r: Option<UserRanks>)
    requires
        stats.wf(),
    ensures
        r is Some <==> lookup(stats.user_stats@, user) is Some,
        match r {
            Some(ur) => {
                &&& exists|view: Seq<LeaderboardEntry>, i: int|
                    #![all_triggers]
                    is_ranking(RankKey::ByFlagged, stats.user_stats@, view) && 0 <= i < view.len()
                        && view[i].user_id == user && ur.by_flagged == view[i].rank
                &&& exists|view: Seq<LeaderboardEntry>, i: int|
                    #![all_triggers]
                    is_ranking(RankKey::ByTotal, stats.user_stats@, view) && 0 <= i < view.len()
                        && view[i].user_id == user && ur.by_total == view[i].rank
                &&& exists|view: Seq<LeaderboardEntry>, i: int|
                    #![all_triggers]
                    is_ranking(RankKey::ByPercentage, stats.user_stats@, view) && 0 <= i
                        < view.len() && view[i].user_id == user && ur.by_percentage == view[i].rank
            },
            None => true,
        },
{
    let vf = ranked(stats, RankKey::ByFlagged);
    let vt = ranked(stats, RankKey::ByTotal);
    let vp = ranked(stats, RankKey::ByPercentage);
    let rf = rank_of_user(&vf, user);
    let rt = rank_of_user(&vt, user);
    let rp = rank_of_user(&vp, user);
    match (rf, rt, rp) {
        (Some(a), Some(b), Some(c)) => Some(
            UserRanks { by_flagged: a, by_total: b, by_percentage: c },
        ),
        _ => None,
    }
}

/// A user with no messages has an undefined percentage and ranks last in the
/// percentage view: in any percentage-sorted view, once a zero-total row
/// appears, every later row has a zero total. Deriving the view raises nothing
/// on such a user: the comparison multiplies across and never divides.
pub proof fn lemma_zero_total_ranks_last(s: Seq<LeaderboardEntry>)
    requires
        key_sorted(RankKey::ByPercentage, s),
    ensures
        forall|i: int, j: int|
            0 <= i < j < s.len() && (#[trigger] s[i]).total_count == 0 ==> (#[trigger] s[j]).total_count == 0,
{
    assert forall|i: int, j: int|
        0 <= i < j < s.len() && (#[trigger] s[i]).total_count == 0 implies (#[trigger] s[j]).total_count
        == 0 by {
        assert(key_ge(RankKey::ByPercentage, s[i], s[j]));
    }
}

} // verus!
