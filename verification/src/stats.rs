//! Message statistics: the per-user counters one source scan produces, and the
//! aggregator that merges many per-source results into one global result. The
//! merge is order-independent, and the global totals obey a conservation law:
//! they equal the sum of the per-source totals.

use vstd::prelude::*;
use crate::sums::{
    lemma_seq_sum_concat, lemma_seq_sum_element_le, lemma_seq_sum_le, lemma_seq_sum_nonneg,
    lemma_seq_sum_permutation, lemma_seq_sum_push, lemma_seq_sum_take_le, lemma_seq_sum_take_succ,
    lemma_seq_sum_update, seq_sum,
};

verus! {

/// Counters for one user: messages seen in total, and those matching the
/// flagged-content marker.
#[derive(Clone, Copy, PartialEq, Eq, Structural, Debug)]
pub struct MessageStat {
    pub total_count: u64,
    pub flagged_count: u64,
}

impl MessageStat {
    pub open spec fn wf(self) -> bool {
        self.flagged_count <= self.total_count
    }
}

/// A user-to-stat table, stored as entries with pairwise distinct keys.
pub open spec fn keys_unique(e: Seq<(u64, MessageStat)>) -> bool {
    forall|i: int, j: int| 0 <= i < j < e.len() ==> e[i].0 != e[j].0
}

pub open spec fn stats_wf(e: Seq<(u64, MessageStat)>) -> bool {
    forall|i: int| 0 <= i < e.len() ==> (#[trigger] e[i]).1.wf()
}

/// The stat recorded for `u`, when one is.
pub open spec fn lookup(e: Seq<(u64, MessageStat)>, u: u64) -> Option<MessageStat>
    decreases e.len(),
{
    if e.len() == 0 {
        None
    } else if e.last().0 == u {
        Some(e.last().1)
    } else {
        lookup(e.drop_last(), u)
    }
}

/// A user's total count, with zero standing for an absent user.
pub open spec fn total_of(o: Option<MessageStat>) -> int {
    match o {
        Some(st) => st.total_count as int,
        None => 0,
    }
}

pub open spec fn flagged_of(o: Option<MessageStat>) -> int {
    match o {
        Some(st) => st.flagged_count as int,
        None => 0,
    }
}

pub open spec fn entries_total(e: Seq<(u64, MessageStat)>) -> int {
    seq_sum(e, |p: (u64, MessageStat)| p.1.total_count as int)
}

pub open spec fn entries_flagged(e: Seq<(u64, MessageStat)>) -> int {
    seq_sum(e, |p: (u64, MessageStat)| p.1.flagged_count as int)
}

/// A lookup succeeds exactly when some entry carries the key.
pub proof fn lemma_lookup_exists(e: Seq<(u64, MessageStat)>, u: u64)
    ensures
        lookup(e, u) is Some <==> exists|i: int| 0 <= i < e.len() && e[i].0 == u,
    decreases e.len(),
{
    if e.len() > 0 {
        lemma_lookup_exists(e.drop_last(), u);
        if lookup(e, u) is Some {
            if e.last().0 == u {
                assert(e[e.len() - 1].0 == u);
            } else {
                let i = choose|i: int| 0 <= i < e.drop_last().len() && e.drop_last()[i].0 == u;
                assert(e[i].0 == u);
            }
        }
        if exists|i: int| 0 <= i < e.len() && e[i].0 == u {
            let i = choose|i: int| 0 <= i < e.len() && e[i].0 == u;
            if i < e.len() - 1 {
                assert(e.drop_last()[i].0 == u);
            }
        }
    }
}

/// With distinct keys, finding the key at some index pins the lookup result.
pub proof fn lemma_lookup_index(e: Seq<(u64, MessageStat)>, i: int)
    requires
        keys_unique(e),
        0 <= i < e.len(),
    ensures
        lookup(e, e[i].0) == Some(e[i].1),
    decreases e.len(),
{
    if i == e.len() - 1 {
        assert(e.last() == e[i]);
    } else {
        assert(e.last().0 != e[i].0);
        assert(e.drop_last()[i] == e[i]);
        lemma_lookup_index(e.drop_last(), i);
    }
}

/// How a lookup sees one more entry of a prefix.
pub proof fn lemma_lookup_take_succ(e: Seq<(u64, MessageStat)>, m: int)
    requires
        0 <= m < e.len(),
    ensures
        forall|u: u64|
            #[trigger] lookup(e.take(m + 1), u) == (if e[m].0 == u {
                Some(e[m].1)
            } else {
                lookup(e.take(m), u)
            }),
{
    assert(e.take(m + 1).drop_last() =~= e.take(m));
    assert(e.take(m + 1).last() == e[m]);
    assert(e.take(m + 1).len() == m + 1);
}

/// Replacing the entry at `i` by one with the same key changes exactly that
/// key's lookup.
pub proof fn lemma_lookup_update(e: Seq<(u64, MessageStat)>, i: int, x: (u64, MessageStat))
    requires
        keys_unique(e),
        0 <= i < e.len(),
        x.0 == e[i].0,
    ensures
        keys_unique(e.update(i, x)),
        lookup(e.update(i, x), x.0) == Some(x.1),
        forall|u: u64| u != x.0 ==> #[trigger] lookup(e.update(i, x), u) == lookup(e, u),
    decreases e.len(),
{
    let e2 = e.update(i, x);
    assert(forall|a: int, b: int| 0 <= a < b < e2.len() ==> e2[a].0 != e2[b].0);
    if i == e.len() - 1 {
        assert(e2.drop_last() =~= e.drop_last());
        assert(e2.last() == x);
        assert forall|u: u64| u != x.0 implies #[trigger] lookup(e2, u) == lookup(e, u) by {
            assert(lookup(e2, u) == lookup(e.drop_last(), u));
            assert(e.last().0 == x.0);
        }
    } else {
        assert(e2.drop_last() =~= e.drop_last().update(i, x));
        assert(e2.last() == e.last());
        assert(e.drop_last()[i] == e[i]);
        assert(e.last().0 != e[i].0);
        lemma_lookup_update(e.drop_last(), i, x);
        assert forall|u: u64| u != x.0 implies #[trigger] lookup(e2, u) == lookup(e, u) by {
            if e.last().0 != u {
                assert(lookup(e2, u) == lookup(e.drop_last().update(i, x), u));
                assert(lookup(e, u) == lookup(e.drop_last(), u));
            }
        }
    }
}

/// Appending an entry with a fresh key adds exactly that key.
pub proof fn lemma_lookup_push(e: Seq<(u64, MessageStat)>, x: (u64, MessageStat))
    requires
        keys_unique(e),
        lookup(e, x.0) is None,
    ensures
        keys_unique(e.push(x)),
        lookup(e.push(x), x.0) == Some(x.1),
        forall|u: u64| u != x.0 ==> #[trigger] lookup(e.push(x), u) == lookup(e, u),
{
    lemma_lookup_exists(e, x.0);
    let e2 = e.push(x);
    assert(forall|a: int| 0 <= a < e.len() ==> e2[a] == e[a]);
    assert(forall|a: int, b: int| 0 <= a < b < e2.len() ==> e2[a].0 != e2[b].0);
    assert(e2.drop_last() =~= e);
    assert(e2.last() == x);
}

/// Finds the entry holding `u`, if any.
fn find_key(e: &Vec<(u64, MessageStat)>, u: u64) -> (r: Option<usize>)
    requires
        keys_unique(e@),
    ensures
        match r {
            Some(i) => i < e@.len() && e@[i as int].0 == u && lookup(e@, u) == Some(
                e@[i as int].1,
            ),
            None => lookup(e@, u) is None,
        },
{
    let n = e.len();
    let mut i: usize = 0;
    while i < n
        invariant
            n == e@.len(),
            i <= n,
            keys_unique(e@),
            forall|j: int| 0 <= j < i ==> e@[j].0 != u,
        decreases n - i,
    {
        if e[i].0 == u {
            proof {
                lemma_lookup_index(e@, i as int);
            }
            return Some(i);
        }
        i = i + 1;
    }
    proof {
        lemma_lookup_exists(e@, u);
    }
    None
}

/// Adds `dt` messages, `df` of them flagged, to `u`'s entry, creating the
/// entry when the user is new.
pub(crate) fn add_stat(e: &mut Vec<(u64, MessageStat)>, u: u64, dt: u64, df: u64)
    requires
        keys_unique(old(e)@),
        stats_wf(old(e)@),
        df <= dt,
        total_of(lookup(old(e)@, u)) + dt <= u64::MAX,
    ensures
        keys_unique(final(e)@),
        stats_wf(final(e)@),
        lookup(final(e)@, u) is Some,
        total_of(lookup(final(e)@, u)) == total_of(lookup(old(e)@, u)) + dt,
        flagged_of(lookup(final(e)@, u)) == flagged_of(lookup(old(e)@, u)) + df,
        forall|u2: u64| u2 != u ==> #[trigger] lookup(final(e)@, u2) == lookup(old(e)@, u2),
        entries_total(final(e)@) == entries_total(old(e)@) + dt,
        entries_flagged(final(e)@) == entries_flagged(old(e)@) + df,
{
    let ghost e0 = e@;
    let ghost ft = |p: (u64, MessageStat)| p.1.total_count as int;
    let ghost ff = |p: (u64, MessageStat)| p.1.flagged_count as int;
    match find_key(e, u) {
        Some(i) => {
            let cur = e[i];
            let st = MessageStat {
                total_count: cur.1.total_count + dt,
                flagged_count: cur.1.flagged_count + df,
            };
            let slot = &mut e[i];
            *slot = (u, st);
            proof {
                lemma_lookup_update(e0, i as int, (u, st));
                lemma_seq_sum_update(e0, ft, i as int, (u, st));
                lemma_seq_sum_update(e0, ff, i as int, (u, st));
            }
        },
        None => {
            let st = MessageStat { total_count: dt, flagged_count: df };
            e.push((u, st));
            proof {
                lemma_lookup_push(e0, (u, st));
                lemma_seq_sum_push(e0, ft, (u, st));
                lemma_seq_sum_push(e0, ff, (u, st));
            }
        },
    }
}

/// One source's output: per-user counters plus the source-global pair. Once a
/// scan returns it, nothing mutates it.
#[derive(Clone)]
pub struct ChannelResult {
    pub source_id: u64,
    pub user_stats: Vec<(u64, MessageStat)>,
    pub global_total: u64,
    pub global_flagged: u64,
}

impl ChannelResult {
    /// Keys are distinct, every stat is consistent, and the source-global pair
    /// equals the sum of the per-user counters.
    pub open spec fn wf(self) -> bool {
        &&& keys_unique(self.user_stats@)
        &&& stats_wf(self.user_stats@)
        &&& self.global_total as int == entries_total(self.user_stats@)
        &&& self.global_flagged as int == entries_flagged(self.user_stats@)
    }

    /// The stat recorded for `user`, if any message of theirs was seen.
    pub fn get(&self, user: u64) -> (r: Option<MessageStat>)
        requires
            self.wf(),
        ensures
            r == lookup(self.user_stats@, user),
    {
        match find_key(&self.user_stats, user) {
            Some(i) => Some(self.user_stats[i].1),
            None => None,
        }
    }
}

/// The merged result over all sources, with the same shape and invariant.
pub struct GlobalStats {
    pub user_stats: Vec<(u64, MessageStat)>,
    pub global_total: u64,
    pub global_flagged: u64,
}

impl GlobalStats {
    pub open spec fn wf(self) -> bool {
        &&& keys_unique(self.user_stats@)
        &&& stats_wf(self.user_stats@)
        &&& self.global_total as int == entries_total(self.user_stats@)
        &&& self.global_flagged as int == entries_flagged(self.user_stats@)
    }

    pub fn get(&self, user: u64) -> (r: Option<MessageStat>)
        requires
            self.wf(),
        ensures
            r == lookup(self.user_stats@, user),
    {
        match find_key(&self.user_stats, user) {
            Some(i) => Some(self.user_stats[i].1),
            None => None,
        }
    }
}

/// What one source contributes to `u`'s total.
pub open spec fn contrib_total(cr: ChannelResult, u: u64) -> int {
    total_of(lookup(cr.user_stats@, u))
}

pub open spec fn contrib_flagged(cr: ChannelResult, u: u64) -> int {
    flagged_of(lookup(cr.user_stats@, u))
}

/// The sum of the per-source global totals: what conservation demands of the
/// merged `global_total`.
pub open spec fn sum_total(s: Seq<ChannelResult>) -> int {
    seq_sum(s, |cr: ChannelResult| cr.global_total as int)
}

pub open spec fn sum_flagged(s: Seq<ChannelResult>) -> int {
    seq_sum(s, |cr: ChannelResult| cr.global_flagged as int)
}

/// `u`'s total across all sources.
pub open spec fn user_total(s: Seq<ChannelResult>, u: u64) -> int {
    seq_sum(s, |cr: ChannelResult| contrib_total(cr, u))
}

pub open spec fn user_flagged(s: Seq<ChannelResult>, u: u64) -> int {
    seq_sum(s, |cr: ChannelResult| contrib_flagged(cr, u))
}

/// In how many sources `u` appears.
pub open spec fn user_sources(s: Seq<ChannelResult>, u: u64) -> int {
    seq_sum(
        s,
        |cr: ChannelResult|
            if lookup(cr.user_stats@, u) is Some {
                1int
            } else {
                0int
            },
    )
}

pub open spec fn has_user(s: Seq<ChannelResult>, u: u64) -> bool {
    user_sources(s, u) > 0
}

/// In a well-formed result no single user exceeds the source-global counters,
/// and the flagged counter never exceeds the total.
pub proof fn lemma_channel_bounds(cr: ChannelResult)
    requires
        cr.wf(),
    ensures
        forall|u: u64| 0 <= #[trigger] contrib_total(cr, u) <= cr.global_total,
        forall|u: u64| 0 <= #[trigger] contrib_flagged(cr, u) <= cr.global_flagged,
        cr.global_flagged <= cr.global_total,
{
    let e = cr.user_stats@;
    let ft = |p: (u64, MessageStat)| p.1.total_count as int;
    let ff = |p: (u64, MessageStat)| p.1.flagged_count as int;
    assert forall|u: u64| 0 <= #[trigger] contrib_total(cr, u) <= cr.global_total by {
        if lookup(e, u) is Some {
            lemma_lookup_exists(e, u);
            let i = choose|i: int| 0 <= i < e.len() && e[i].0 == u;
            lemma_lookup_index(e, i);
            lemma_seq_sum_element_le(e, ft, i);
        }
    }
    assert forall|u: u64| 0 <= #[trigger] contrib_flagged(cr, u) <= cr.global_flagged by {
        if lookup(e, u) is Some {
            lemma_lookup_exists(e, u);
            let i = choose|i: int| 0 <= i < e.len() && e[i].0 == u;
            lemma_lookup_index(e, i);
            lemma_seq_sum_element_le(e, ff, i);
        }
    }
    lemma_seq_sum_le(e, ff, ft);
}

/// Merges the per-source results into one global result. The ensures pin the
/// merged value down pointwise: the global pair is the sum of the source-global
/// pairs (conservation), and each user's merged stat is the sum of that user's
/// per-source stats. Together with `lemma_merge_order_independent` this makes
/// the merge independent of the order the workers finished in.
#[verifier::loop_isolation(false)]
pub fn merge(results: &Vec<ChannelResult>) -> (r: GlobalStats)
    requires
        forall|i: int| 0 <= i < results@.len() ==> (#[trigger] results@[i]).wf(),
        sum_total(results@) <= u64::MAX,
    ensures
        r.wf(),
        r.global_total as int == sum_total(results@),
        r.global_flagged as int == sum_flagged(results@),
        forall|u: u64| #[trigger] lookup(r.user_stats@, u) is Some <==> has_user(results@, u),
        forall|u: u64| total_of(#[trigger] lookup(r.user_stats@, u)) == user_total(results@, u),
        forall|u: u64|
            flagged_of(#[trigger] lookup(r.user_stats@, u)) == user_flagged(results@, u),
{
    let ghost rs = results@;
    let ghost ft = |cr: ChannelResult| cr.global_total as int;
    let ghost ff = |cr: ChannelResult| cr.global_flagged as int;
    let mut acc: Vec<(u64, MessageStat)> = Vec::new();
    let mut gt: u64 = 0;
    let mut gf: u64 = 0;
    let n = results.len();
    let mut k: usize = 0;

    proof {
        assert(rs.take(0) =~= Seq::<ChannelResult>::empty());
    }

    while k < n
        invariant
            n == rs.len(),
            k <= n,
            rs == results@,
            forall|i: int| 0 <= i < rs.len() ==> (#[trigger] rs[i]).wf(),
            sum_total(rs) <= u64::MAX,
            keys_unique(acc@),
            stats_wf(acc@),
            gt as int == sum_total(rs.take(k as int)),
            gf as int == sum_flagged(rs.take(k as int)),
            entries_total(acc@) == gt as int,
            entries_flagged(acc@) == gf as int,
            forall|u: u64| #[trigger] lookup(acc@, u) is Some <==> has_user(rs.take(k as int), u),
            forall|u: u64|
                total_of(#[trigger] lookup(acc@, u)) == user_total(rs.take(k as int), u),
            forall|u: u64|
                flagged_of(#[trigger] lookup(acc@, u)) == user_flagged(rs.take(k as int), u),
        decreases n - k,
    {
        let ghost pre = rs.take(k as int);
        let ghost post = rs.take(k as int + 1);
        let cr = &results[k];
        let ghost crv = rs[k as int];
        proof {
            lemma_channel_bounds(crv);
            // The two global counters stay within u64 across this step.
            lemma_seq_sum_take_succ(rs, ft, k as int);
            lemma_seq_sum_take_succ(rs, ff, k as int);
            assert(forall|i: int| 0 <= i < rs.len() ==> #[trigger] ft(rs[i]) >= 0);
            lemma_seq_sum_take_le(rs, ft, k as int + 1);
            assert forall|i: int| 0 <= i < rs.len() implies #[trigger] ff(rs[i]) <= ft(rs[i]) by {
                lemma_channel_bounds(rs[i]);
            }
            lemma_seq_sum_le(rs, ff, ft);
            assert(forall|i: int| 0 <= i < rs.len() ==> #[trigger] ff(rs[i]) >= 0);
            lemma_seq_sum_take_le(rs, ff, k as int + 1);
            lemma_seq_sum_nonneg(pre, ft);
        }
        let e = &cr.user_stats;
        let m_end = e.len();
        let mut m: usize = 0;
        proof {
            assert(e@.take(0) =~= Seq::<(u64, MessageStat)>::empty());
        }
        while m < m_end
            invariant
                m_end == e@.len(),
                m <= m_end,
                e@ == crv.user_stats@,
                crv == rs[k as int],
                0 <= k < rs.len(),
                rs == results@,
                forall|i: int| 0 <= i < rs.len() ==> (#[trigger] rs[i]).wf(),
                sum_total(rs) <= u64::MAX,
                keys_unique(acc@),
                stats_wf(acc@),
                entries_total(acc@) == sum_total(rs.take(k as int)) + entries_total(
                    e@.take(m as int),
                ),
                entries_flagged(acc@) == sum_flagged(rs.take(k as int)) + entries_flagged(
                    e@.take(m as int),
                ),
                forall|u: u64|
                    #[trigger] lookup(acc@, u) is Some <==> has_user(rs.take(k as int), u)
                        || lookup(e@.take(m as int), u) is Some,
                forall|u: u64|
                    total_of(#[trigger] lookup(acc@, u)) == user_total(rs.take(k as int), u)
                        + total_of(lookup(e@.take(m as int), u)),
                forall|u: u64|
                    flagged_of(#[trigger] lookup(acc@, u)) == user_flagged(rs.take(k as int), u)
                        + flagged_of(lookup(e@.take(m as int), u)),
            decreases m_end - m,
        {
            let (u, st) = e[m];
            proof {
                lemma_lookup_index(e@, m as int);
                // The entry at m has a key unseen in the prefix before m.
                lemma_lookup_exists(e@.take(m as int), u);
                if lookup(e@.take(m as int), u) is Some {
                    let i = choose|i: int|
                        0 <= i < e@.take(m as int).len() && e@.take(m as int)[i].0 == u;
                    assert(e@[i].0 == e@[m as int].0);
                    assert(false);
                }
                // No overflow: the running total for u stays under the grand total.
                let fct = |cr2: ChannelResult| contrib_total(cr2, u);
                lemma_seq_sum_take_succ(rs, fct, k as int);
                assert forall|i: int| 0 <= i < rs.len() implies 0 <= #[trigger] fct(rs[i])
                    <= ft(rs[i]) by {
                    lemma_channel_bounds(rs[i]);
                }
                lemma_seq_sum_take_le(rs, fct, k as int + 1);
                lemma_seq_sum_le(rs, fct, ft);
                assert(contrib_total(crv, u) == st.total_count as int);
                assert(user_total(rs.take(k as int), u) + st.total_count <= sum_total(rs));
            }
            add_stat(&mut acc, u, st.total_count, st.flagged_count);
            proof {
                lemma_lookup_take_succ(e@, m as int);
                lemma_seq_sum_push(
                    e@.take(m as int),
                    |p: (u64, MessageStat)| p.1.total_count as int,
                    e@[m as int],
                );
                lemma_seq_sum_push(
                    e@.take(m as int),
                    |p: (u64, MessageStat)| p.1.flagged_count as int,
                    e@[m as int],
                );
                assert(e@.take(m as int).push(e@[m as int]) =~= e@.take(m as int + 1));
            }
            m = m + 1;
        }
        proof {
            assert(e@.take(m as int) =~= e@);
            // Close the per-user sums over one more source.
            assert forall|u: u64|
                user_total(rs.take(k as int), u) + total_of(lookup(e@, u)) == user_total(
                    post,
                    u,
                ) by {
                lemma_seq_sum_take_succ(rs, |cr2: ChannelResult| contrib_total(cr2, u), k as int);
            }
            assert forall|u: u64|
                user_flagged(rs.take(k as int), u) + flagged_of(lookup(e@, u)) == user_flagged(
                    post,
                    u,
                ) by {
                lemma_seq_sum_take_succ(rs, |cr2: ChannelResult| contrib_flagged(cr2, u), k as int);
            }
            assert forall|u: u64|
                #[trigger] lookup(acc@, u) is Some <==> has_user(post, u) by {
                let fcs = |cr2: ChannelResult|
                    if lookup(cr2.user_stats@, u) is Some {
                        1int
                    } else {
                        0int
                    };
                lemma_seq_sum_take_succ(rs, fcs, k as int);
                assert(forall|i: int| 0 <= i < pre.len() ==> #[trigger] fcs(pre[i]) >= 0);
                lemma_seq_sum_nonneg(pre, fcs);
            }
            lemma_seq_sum_take_succ(rs, ft, k as int);
            lemma_seq_sum_take_succ(rs, ff, k as int);
        }
        gt = gt + cr.global_total;
        gf = gf + cr.global_flagged;
        k = k + 1;
    }
    proof {
        assert(rs.take(n as int) =~= rs);
    }
    GlobalStats { user_stats: acc, global_total: gt, global_flagged: gf }
}

/// Merges after checking that the grand total fits a counter, so callers need
/// not bound their inputs themselves: `None` exactly when the summed total
/// would overflow, with nothing merged.
#[verifier::loop_isolation(false)]
pub fn merge_checked(results: &Vec<ChannelResult>) -> (r: Option<GlobalStats>)
    requires
        forall|i: int| 0 <= i < results@.len() ==> (#[trigger] results@[i]).wf(),
    ensures
        match r {
            Some(g) => {
                &&& sum_total(results@) <= u64::MAX
                &&& g.wf()
                &&& g.global_total as int == sum_total(results@)
                &&& g.global_flagged as int == sum_flagged(results@)
                &&& forall|u: u64|
                    #[trigger] lookup(g.user_stats@, u) is Some <==> has_user(results@, u)
                &&& forall|u: u64|
                    total_of(#[trigger] lookup(g.user_stats@, u)) == user_total(results@, u)
                &&& forall|u: u64|
                    flagged_of(#[trigger] lookup(g.user_stats@, u)) == user_flagged(results@, u)
            },
            None => sum_total(results@) > u64::MAX,
        },
{
    let ghost rs = results@;
    let ghost ft = |cr: ChannelResult| cr.global_total as int;
    let n = results.len();
    let mut sum: u64 = 0;
    let mut k: usize = 0;
    proof {
        assert(rs.take(0) =~= Seq::<ChannelResult>::empty());
    }
    while k < n
        invariant
            k <= n == rs.len(),
            sum as int == sum_total(rs.take(k as int)),
        decreases n - k,
    {
        proof {
            lemma_seq_sum_take_succ(rs, ft, k as int);
        }
        sum = match sum.checked_add(results[k].global_total) {
            Some(s) => s,
            None => {
                proof {
                    assert(forall|i: int| 0 <= i < rs.len() ==> #[trigger] ft(rs[i]) >= 0);
                    lemma_seq_sum_take_le(rs, ft, k as int + 1);
                }
                return None;
            },
        };
        k = k + 1;
    }
    proof {
        assert(rs.take(n as int) =~= rs);
    }
    Some(merge(results))
}

/// Grouping independence of the merge: every quantity `merge` is pinned to
/// splits over a concatenation, so merging all results at once agrees with
/// combining partial merges — the reduction is associative.
pub proof fn lemma_merge_grouping(a: Seq<ChannelResult>, b: Seq<ChannelResult>)
    ensures
        sum_total(a + b) == sum_total(a) + sum_total(b),
        sum_flagged(a + b) == sum_flagged(a) + sum_flagged(b),
        forall|u: u64| #[trigger] user_total(a + b, u) == user_total(a, u) + user_total(b, u),
        forall|u: u64| #[trigger] user_flagged(a + b, u) == user_flagged(a, u) + user_flagged(b, u),
        forall|u: u64| #[trigger] has_user(a + b, u) <==> has_user(a, u) || has_user(b, u),
{
    lemma_seq_sum_concat(a, b, |cr: ChannelResult| cr.global_total as int);
    lemma_seq_sum_concat(a, b, |cr: ChannelResult| cr.global_flagged as int);
    assert forall|u: u64| #[trigger] user_total(a + b, u) == user_total(a, u) + user_total(
        b,
        u,
    ) by {
        lemma_seq_sum_concat(a, b, |cr: ChannelResult| contrib_total(cr, u));
    }
    assert forall|u: u64| #[trigger] user_flagged(a + b, u) == user_flagged(a, u) + user_flagged(
        b,
        u,
    ) by {
        lemma_seq_sum_concat(a, b, |cr: ChannelResult| contrib_flagged(cr, u));
    }
    assert forall|u: u64| #[trigger] has_user(a + b, u) <==> has_user(a, u) || has_user(b, u) by {
        let fcs = |cr: ChannelResult|
            if lookup(cr.user_stats@, u) is Some {
                1int
            } else {
                0int
            };
        lemma_seq_sum_concat(a, b, fcs);
        assert(forall|i: int| 0 <= i < a.len() ==> #[trigger] fcs(a[i]) >= 0);
        assert(forall|i: int| 0 <= i < b.len() ==> #[trigger] fcs(b[i]) >= 0);
        lemma_seq_sum_nonneg(a, fcs);
        lemma_seq_sum_nonneg(b, fcs);
    }
}

/// Order independence of the merge: two worker orderings with the same
/// multiset of per-source results give the same sums, the same per-user
/// counters, and the same set of users — every quantity `merge` is pinned to.
/// The merged `GlobalStats` is therefore identical under any permutation.
pub proof fn lemma_merge_order_independent(a: Seq<ChannelResult>, b: Seq<ChannelResult>)
    requires
        a.to_multiset() == b.to_multiset(),
    ensures
        sum_total(a) == sum_total(b),
        sum_flagged(a) == sum_flagged(b),
        forall|u: u64| #[trigger] user_total(a, u) == user_total(b, u),
        forall|u: u64| #[trigger] user_flagged(a, u) == user_flagged(b, u),
        forall|u: u64| #[trigger] has_user(a, u) <==> has_user(b, u),
{
    lemma_seq_sum_permutation(a, b, |cr: ChannelResult| cr.global_total as int);
    lemma_seq_sum_permutation(a, b, |cr: ChannelResult| cr.global_flagged as int);
    assert forall|u: u64| #[trigger] user_total(a, u) == user_total(b, u) by {
        lemma_seq_sum_permutation(a, b, |cr: ChannelResult| contrib_total(cr, u));
    }
    assert forall|u: u64| #[trigger] user_flagged(a, u) == user_flagged(b, u) by {
        lemma_seq_sum_permutation(a, b, |cr: ChannelResult| contrib_flagged(cr, u));
    }
    assert forall|u: u64| #[trigger] has_user(a, u) <==> has_user(b, u) by {
        lemma_seq_sum_permutation(
            a,
            b,
            |cr: ChannelResult|
                if lookup(cr.user_stats@, u) is Some {
                    1int
                } else {
                    0int
                },
        );
    }
}

} // verus!
