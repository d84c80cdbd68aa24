//! One source's scan: walk the fetched message records end to end, counting
//! per author and flagging messages that contain the fixed content marker.
//! Unreadable records are skipped and never abort the scan; the caller logs
//! them and reports progress once per finished source.

use vstd::prelude::*;
use crate::progress::ProgressReporter;
use crate::stats::{
    add_stat, entries_flagged, entries_total, flagged_of, keys_unique, lookup, stats_wf, total_of,
    ChannelResult,
};
use crate::sums::{lemma_seq_sum_le_len, lemma_seq_sum_take_succ, seq_sum};

verus! {

/// One successfully fetched message: its author and its raw content bytes.
pub struct MessageRecord {
    pub author_id: u64,
    pub content: Vec<u8>,
}

/// One item the paginated feed yields: a record, or a per-item fault
/// (malformed or unavailable entry) that is skipped.
pub enum ScanItem {
    Record(MessageRecord),
    Faulty,
}

/// The fixed content marker, as bytes: ":helpmeplz:".
pub open spec fn marker() -> Seq<u8> {
    seq![58u8, 104u8, 101u8, 108u8, 112u8, 109u8, 101u8, 112u8, 108u8, 122u8, 58u8]
}

/// The needle occurs at offset `i` of the haystack.
pub open spec fn is_match_at(h: Seq<u8>, n: Seq<u8>, i: int) -> bool {
    forall|k: int| 0 <= k < n.len() ==> h[i + k] == n[k]
}

/// The needle occurs somewhere in the haystack.
pub open spec fn contains_bytes(h: Seq<u8>, n: Seq<u8>) -> bool {
    exists|i: int| 0 <= i <= h.len() - n.len() && is_match_at(h, n, i)
}

/// A message counts as flagged when its content contains the marker.
pub open spec fn is_flagged_content(c: Seq<u8>) -> bool {
    contains_bytes(c, marker())
}

/// Measures of one item, for the counting specifications.
pub open spec fn m_record(it: ScanItem) -> int {
    match it {
        ScanItem::Record(_) => 1,
        ScanItem::Faulty => 0,
    }
}

pub open spec fn m_flagged(it: ScanItem) -> int {
    match it {
        ScanItem::Record(r) => if is_flagged_content(r.content@) {
            1
        } else {
            0
        },
        ScanItem::Faulty => 0,
    }
}

pub open spec fn m_record_by(it: ScanItem, u: u64) -> int {
    match it {
        ScanItem::Record(r) => if r.author_id == u {
            1
        } else {
            0
        },
        ScanItem::Faulty => 0,
    }
}

pub open spec fn m_flagged_by(it: ScanItem, u: u64) -> int {
    match it {
        ScanItem::Record(r) => if r.author_id == u && is_flagged_content(r.content@) {
            1
        } else {
            0
        },
        ScanItem::Faulty => 0,
    }
}

/// How many items are readable records.
pub open spec fn count_records(s: Seq<ScanItem>) -> int {
    seq_sum(s, |it: ScanItem| m_record(it))
}

/// How many readable records contain the marker.
pub open spec fn count_flagged(s: Seq<ScanItem>) -> int {
    seq_sum(s, |it: ScanItem| m_flagged(it))
}

/// How many readable records `u` wrote.
pub open spec fn count_by(s: Seq<ScanItem>, u: u64) -> int {
    seq_sum(s, |it: ScanItem| m_record_by(it, u))
}

/// How many readable records `u` wrote that contain the marker.
pub open spec fn count_flagged_by(s: Seq<ScanItem>, u: u64) -> int {
    seq_sum(s, |it: ScanItem| m_flagged_by(it, u))
}

/// The marker, built as a byte vector.
fn marker_bytes() -> (v: Vec<u8>)
    ensures
        v@ == marker(),
{
    let mut v: Vec<u8> = Vec::new();
    v.push(58);
    v.push(104);
    v.push(101);
    v.push(108);
    v.push(112);
    v.push(109);
    v.push(101);
    v.push(112);
    v.push(108);
    v.push(122);
    v.push(58);
    proof {
        assert(v@ =~= marker());
    }
    v
}

/// Whether the needle occurs at offset `i`.
#[verifier::loop_isolation(false)]
fn match_at(h: &Vec<u8>, n: &Vec<u8>, i: usize) -> (r: bool)
    requires
        i + n@.len() <= h@.len(),
    ensures
        r == is_match_at(h@, n@, i as int),
{
    let nl = n.len();
    let hl = h.len();
    let mut k: usize = 0;
    while k < nl
        invariant
            k <= nl,
            hl == h@.len(),
            forall|j: int| 0 <= j < k ==> h@[i + j] == n@[j],
        decreases nl - k,
    {
        assert(i + k < h@.len());
        if h[i + k] != n[k] {
            assert(h@[i as int + k as int] != n@[k as int]);
            return false;
        }
        k = k + 1;
    }
    true
}

/// Whether the needle occurs anywhere in the haystack.
#[verifier::loop_isolation(false)]
fn contains_needle(h: &Vec<u8>, n: &Vec<u8>) -> (r: bool)
    ensures
        r == contains_bytes(h@, n@),
{
    let hl = h.len();
    let nl = n.len();
    if nl > hl {
        return false;
    }
    let last = hl - nl;
    let mut i: usize = 0;
    while i <= last
        invariant
            i <= last + 1,
            forall|j: int| 0 <= j < i ==> !is_match_at(h@, n@, j),
        decreases last + 1 - i,
    {
        if match_at(h, n, i) {
            return true;
        }
        assert(n@.len() > 0);
        i = i + 1;
    }
    false
}

/// Whether a message's content contains the fixed marker.
pub fn is_flagged(content: &Vec<u8>) -> (r: bool)
    ensures
        r == is_flagged_content(content@),
{
    let m = marker_bytes();
    contains_needle(content, &m)
}

/// Scans one source's items end to end. Faulty items are skipped; for each
/// record the author's total is bumped, and the flagged counters when the
/// content carries the marker. The result is exactly the counts over the
/// item sequence, so a faulty item never contributes and never aborts.
#[verifier::loop_isolation(false)]
pub fn scan(source_id: u64, items: &Vec<ScanItem>) -> (r: ChannelResult)
    ensures
        r.wf(),
        r.source_id == source_id,
        r.global_total as int == count_records(items@),
        r.global_flagged as int == count_flagged(items@),
        forall|u: u64| #[trigger] lookup(r.user_stats@, u) is Some <==> count_by(items@, u) > 0,
        forall|u: u64| total_of(#[trigger] lookup(r.user_stats@, u)) == count_by(items@, u),
        forall|u: u64|
            flagged_of(#[trigger] lookup(r.user_stats@, u)) == count_flagged_by(items@, u),
{
    let ghost its = items@;
    let mut acc: Vec<(u64, crate::stats::MessageStat)> = Vec::new();
    let mut gt: u64 = 0;
    let mut gf: u64 = 0;
    let n = items.len();
    let mut k: usize = 0;
    proof {
        assert(its.take(0) =~= Seq::<ScanItem>::empty());
    }
    while k < n
        invariant
            k <= n,
            keys_unique(acc@),
            stats_wf(acc@),
            gt as int == count_records(its.take(k as int)),
            gf as int == count_flagged(its.take(k as int)),
            entries_total(acc@) == gt as int,
            entries_flagged(acc@) == gf as int,
            forall|u: u64|
                #[trigger] lookup(acc@, u) is Some <==> count_by(its.take(k as int), u) > 0,
            forall|u: u64| total_of(#[trigger] lookup(acc@, u)) == count_by(its.take(k as int), u),
            forall|u: u64|
                flagged_of(#[trigger] lookup(acc@, u)) == count_flagged_by(its.take(k as int), u),
        decreases n - k,
    {
        let ghost pre = its.take(k as int);
        proof {
            // Every count over the prefix is at most its length.
            lemma_seq_sum_le_len(pre, |it: ScanItem| m_record(it));
            lemma_seq_sum_le_len(pre, |it: ScanItem| m_flagged(it));
            lemma_seq_sum_take_succ(its, |it: ScanItem| m_record(it), k as int);
            lemma_seq_sum_take_succ(its, |it: ScanItem| m_flagged(it), k as int);
        }
        match &items[k] {
            ScanItem::Record(rec) => {
                let author = rec.author_id;
                let fl = is_flagged(&rec.content);
                proof {
                    lemma_seq_sum_le_len(pre, |it: ScanItem| m_record_by(it, author));
                    lemma_seq_sum_take_succ(its, |it: ScanItem| m_record_by(it, author), k as int);
                    lemma_seq_sum_take_succ(
                        its,
                        |it: ScanItem| m_flagged_by(it, author),
                        k as int,
                    );
                }
                add_stat(&mut acc, author, 1, if fl { 1 } else { 0 });
                gt = gt + 1;
                if fl {
                    gf = gf + 1;
                }
                proof {
                    assert forall|u: u64|
                        total_of(#[trigger] lookup(acc@, u)) == count_by(
                            its.take(k as int + 1),
                            u,
                        ) by {
                        lemma_seq_sum_take_succ(its, |it: ScanItem| m_record_by(it, u), k as int);
                    }
                    assert forall|u: u64|
                        flagged_of(#[trigger] lookup(acc@, u)) == count_flagged_by(
                            its.take(k as int + 1),
                            u,
                        ) by {
                        lemma_seq_sum_take_succ(its, |it: ScanItem| m_flagged_by(it, u), k as int);
                    }
                    assert forall|u: u64|
                        #[trigger] lookup(acc@, u) is Some <==> count_by(
                            its.take(k as int + 1),
                            u,
                        ) > 0 by {
                        lemma_seq_sum_take_succ(its, |it: ScanItem| m_record_by(it, u), k as int);
                        lemma_seq_sum_le_len(its.take(k as int), |it: ScanItem| m_record_by(it, u));
                    }
                }
            },
            ScanItem::Faulty => {
                proof {
                    assert forall|u: u64|
                        total_of(#[trigger] lookup(acc@, u)) == count_by(
                            its.take(k as int + 1),
                            u,
                        ) by {
                        lemma_seq_sum_take_succ(its, |it: ScanItem| m_record_by(it, u), k as int);
                    }
                    assert forall|u: u64|
                        flagged_of(#[trigger] lookup(acc@, u)) == count_flagged_by(
                            its.take(k as int + 1),
                            u,
                        ) by {
                        lemma_seq_sum_take_succ(its, |it: ScanItem| m_flagged_by(it, u), k as int);
                    }
                    assert forall|u: u64|
                        #[trigger] lookup(acc@, u) is Some <==> count_by(
                            its.take(k as int + 1),
                            u,
                        ) > 0 by {
                        lemma_seq_sum_take_succ(its, |it: ScanItem| m_record_by(it, u), k as int);
                    }
                }
            },
        }
        k = k + 1;
    }
    proof {
        assert(its.take(n as int) =~= its);
    }
    ChannelResult { source_id, user_stats: acc, global_total: gt, global_flagged: gf }
}

/// One whole worker: scans its source end to end, then bumps the shared
/// progress counter exactly once. The returned pair is the new
/// "completed/total" for the caller's best-effort status render; a failure of
/// that render is the caller's to log, never this worker's to propagate.
pub fn scan_and_report(
    source_id: u64,
    items: &Vec<ScanItem>,
    reporter: &mut ProgressReporter,
) -> (r: (ChannelResult, (u32, u32)))
    requires
        old(reporter).completed() < old(reporter).total(),
    ensures
        final(reporter).completed() == old(reporter).completed() + 1,
        final(reporter).total() == old(reporter).total(),
        r.1.0 == final(reporter).completed(),
        r.1.1 == final(reporter).total(),
        r.0.wf(),
        r.0.source_id == source_id,
        r.0.global_total as int == count_records(items@),
        r.0.global_flagged as int == count_flagged(items@),
        forall|u: u64| #[trigger] lookup(r.0.user_stats@, u) is Some <==> count_by(items@, u) > 0,
        forall|u: u64| total_of(#[trigger] lookup(r.0.user_stats@, u)) == count_by(items@, u),
        forall|u: u64|
            flagged_of(#[trigger] lookup(r.0.user_stats@, u)) == count_flagged_by(items@, u),
{
    let result = scan(source_id, items);
    let pair = reporter.increment();
    (result, pair)
}

} // verus!
