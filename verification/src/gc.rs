//! The garbage-collection policy: a pure, deterministic classification of
//! every generation-0 and generation-1 memory into expire, promote or keep,
//! computed over the state as it stands when the pass starts.
//!
//! A generation-0 memory that has been reviewed at least `min_reviews` times
//! is expired when its engagement ratio `tap_count / review_count` falls
//! below the threshold, and promoted to generation 1 when the ratio holds up
//! and its tap count reaches `promote_threshold`. Independently, a
//! generation-1 memory whose tap count reaches twice `promote_threshold` is
//! promoted to generation 2. Each memory's fate depends only on its own
//! counters, so the classification is order-independent and re-runnable.

use vstd::prelude::*;
use crate::digits;
use crate::payload;
use crate::store::{
    lemma_filter_take_step, lemma_map_values_push, lemma_mem_views_index, lemma_mem_views_push,
    mem_views, wf, EventAction, EventView, Memory, MemoryView, Store,
};
use vstd::arithmetic::mul::lemma_mul_upper_bound;

verus! {

/// The thresholds a garbage-collection pass runs with; the ratio threshold
/// is given in hundredths.
pub ghost struct GcParams {
    pub min_reviews: int,
    pub min_ratio_hundredths: int,
    pub promote_threshold: int,
}

/// What a pass computed: the expired and the promoted memories, each as
/// `(id, content, tap_count, review_count)` at classification time.
pub struct GcResult {
    /// The memories deleted for low engagement.
    pub expired: Vec<(String, String, u32, u32)>,
    /// The memories lifted to the next generation.
    pub promoted: Vec<(String, String, u32, u32)>,
}

/// Whether the memory's engagement ratio falls below the threshold.
pub open spec fn low_ratio(m: MemoryView, p: GcParams) -> bool {
    if m.review_count == 0 {
        p.min_ratio_hundredths > 0
    } else {
        m.tap_count * 100 < m.review_count * p.min_ratio_hundredths
    }
}

/// Whether the memory is expired: generation 0, reviewed at least
/// `min_reviews` times, ratio below the threshold.
pub open spec fn gc_expire(m: MemoryView, p: GcParams) -> bool {
    m.generation == 0 && m.review_count >= p.min_reviews && low_ratio(m, p)
}

/// Whether the memory is promoted from generation 0 to 1: a candidate whose
/// ratio holds up and whose tap count reaches the threshold.
pub open spec fn gc_promote01(m: MemoryView, p: GcParams) -> bool {
    m.generation == 0 && m.review_count >= p.min_reviews && !low_ratio(m, p) && m.tap_count
        >= p.promote_threshold
}

/// Whether the memory is promoted from generation 1 to 2: its tap count
/// reaches twice the threshold.
pub open spec fn gc_promote12(m: MemoryView, p: GcParams) -> bool {
    m.generation == 1 && m.tap_count >= 2 * p.promote_threshold
}

/// Whether the first classification pass records an event for the memory.
pub open spec fn gc_pass1(m: MemoryView, p: GcParams) -> bool {
    gc_expire(m, p) || gc_promote01(m, p)
}

pub open spec fn gc_expire_p(p: GcParams) -> spec_fn(MemoryView) -> bool {
    |m: MemoryView| gc_expire(m, p)
}

pub open spec fn gc_promote01_p(p: GcParams) -> spec_fn(MemoryView) -> bool {
    |m: MemoryView| gc_promote01(m, p)
}

pub open spec fn gc_promote12_p(p: GcParams) -> spec_fn(MemoryView) -> bool {
    |m: MemoryView| gc_promote12(m, p)
}

pub open spec fn gc_pass1_p(p: GcParams) -> spec_fn(MemoryView) -> bool {
    |m: MemoryView| gc_pass1(m, p)
}

pub open spec fn gc_keep_p(p: GcParams) -> spec_fn(MemoryView) -> bool {
    |m: MemoryView| !gc_expire(m, p)
}

/// The `(id, content, taps, reviews)` tuple reported for a memory.
pub open spec fn gc_tuple(m: MemoryView) -> (Seq<char>, Seq<char>, int, int) {
    (m.id, m.content, m.tap_count, m.review_count)
}

pub open spec fn gc_tuple_f() -> spec_fn(MemoryView) -> (Seq<char>, Seq<char>, int, int) {
    |m: MemoryView| gc_tuple(m)
}

/// The views of reported tuples.
pub open spec fn tuple_views(ts: Seq<(String, String, u32, u32)>) -> Seq<(Seq<char>, Seq<char>, int, int)> {
    ts.map_values(|t: (String, String, u32, u32)| (t.0@, t.1@, t.2 as int, t.3 as int))
}

pub broadcast proof fn lemma_tuple_views_index(ts: Seq<(String, String, u32, u32)>, i: int)
    requires
        0 <= i < ts.len(),
    ensures
        #[trigger] tuple_views(ts)[i] == (ts[i].0@, ts[i].1@, ts[i].2 as int, ts[i].3 as int),
{
}

proof fn lemma_tuple_views_push(ts: Seq<(String, String, u32, u32)>, t: (String, String, u32, u32))
    ensures
        tuple_views(ts.push(t)) == tuple_views(ts).push((t.0@, t.1@, t.2 as int, t.3 as int)),
{
    broadcast use lemma_tuple_views_index;

    assert(tuple_views(ts.push(t)) =~= tuple_views(ts).push((t.0@, t.1@, t.2 as int, t.3 as int)));
}

/// The memories the pass expires, in store order.
pub open spec fn gc_expired_list(ms: Seq<MemoryView>, p: GcParams) -> Seq<(Seq<char>, Seq<char>, int, int)> {
    ms.filter(gc_expire_p(p)).map_values(gc_tuple_f())
}

/// The memories the pass promotes: generation 0 to 1 first, then 1 to 2,
/// each in store order.
pub open spec fn gc_promoted_list(ms: Seq<MemoryView>, p: GcParams) -> Seq<(Seq<char>, Seq<char>, int, int)> {
    ms.filter(gc_promote01_p(p)).map_values(gc_tuple_f()) + ms.filter(gc_promote12_p(p)).map_values(
        gc_tuple_f(),
    )
}

/// The engagement ratio of a memory in hundredths, zero when it was never
/// reviewed.
pub open spec fn ratio_h_of(m: MemoryView) -> int {
    if m.review_count == 0 {
        0
    } else {
        digits::ratio_hundredths(m.tap_count, m.review_count)
    }
}

/// A memory after the pass applies its decision.
pub open spec fn gc_mem_after(m: MemoryView, p: GcParams) -> MemoryView {
    if gc_promote01(m, p) {
        MemoryView { generation: 1, ..m }
    } else if gc_promote12(m, p) {
        MemoryView { generation: 2, ..m }
    } else {
        m
    }
}

pub open spec fn gc_mem_after_f(p: GcParams) -> spec_fn(MemoryView) -> MemoryView {
    |m: MemoryView| gc_mem_after(m, p)
}

/// The memory records after the pass: expired records are gone, promoted
/// records carry their new generation, order is kept.
pub open spec fn spec_gc_memories(ms: Seq<MemoryView>, p: GcParams) -> Seq<MemoryView> {
    ms.filter(gc_keep_p(p)).map_values(gc_mem_after_f(p))
}

/// A ledger entry not yet numbered.
pub ghost struct EventDesc {
    pub action: EventAction,
    pub memory_id: Option<Seq<char>>,
    pub data: Option<Seq<char>>,
}

/// Numbers a batch of entries sequentially from `base + 1`.
pub open spec fn number_events(base: int, ds: Seq<EventDesc>, now: int) -> Seq<EventView> {
    Seq::new(
        ds.len(),
        |k: int| EventView {
            id: base + 1 + k,
            timestamp: now,
            action: ds[k].action,
            memory_id: ds[k].memory_id,
            data: ds[k].data,
        },
    )
}

/// The entry recorded for a first-pass decision: EXPIRE with the reason and
/// ratio, or PROMOTE from generation 0 to 1.
pub open spec fn gc_desc1(m: MemoryView, p: GcParams) -> EventDesc {
    if gc_expire(m, p) {
        EventDesc {
            action: EventAction::Expire,
            memory_id: Some(m.id),
            data: Some(payload::expire_payload(ratio_h_of(m))),
        }
    } else {
        EventDesc {
            action: EventAction::Promote,
            memory_id: Some(m.id),
            data: Some(payload::promote01_payload()),
        }
    }
}

pub open spec fn gc_desc1_f(p: GcParams) -> spec_fn(MemoryView) -> EventDesc {
    |m: MemoryView| gc_desc1(m, p)
}

/// The entry recorded for a PROMOTE from generation 1 to 2.
pub open spec fn gc_desc12(m: MemoryView) -> EventDesc {
    EventDesc {
        action: EventAction::Promote,
        memory_id: Some(m.id),
        data: Some(payload::promote12_payload()),
    }
}

pub open spec fn gc_desc12_f() -> spec_fn(MemoryView) -> EventDesc {
    |m: MemoryView| gc_desc12(m)
}

/// Every ledger entry the pass appends, in order: the first-pass decisions
/// in store order, then the generation-1 promotions in store order.
pub open spec fn gc_descs(ms: Seq<MemoryView>, p: GcParams) -> Seq<EventDesc> {
    ms.filter(gc_pass1_p(p)).map_values(gc_desc1_f(p)) + ms.filter(gc_promote12_p(p)).map_values(
        gc_desc12_f(),
    )
}

/// The view of a pending exec-side ledger entry.
pub open spec fn desc_views(ds: Seq<(EventAction, String, Option<String>)>) -> Seq<EventDesc> {
    ds.map_values(
        |d: (EventAction, String, Option<String>)| EventDesc {
            action: d.0,
            memory_id: Some(d.1@),
            data: match d.2 {
                Some(s) => Some(s@),
                None => None,
            },
        },
    )
}

pub broadcast proof fn lemma_desc_views_index(ds: Seq<(EventAction, String, Option<String>)>, i: int)
    requires
        0 <= i < ds.len(),
    ensures
        #[trigger] desc_views(ds)[i] == (EventDesc {
            action: ds[i].0,
            memory_id: Some(ds[i].1@),
            data: match ds[i].2 {
                Some(s) => Some(s@),
                None => None,
            },
        }),
{
}

proof fn lemma_desc_views_push(ds: Seq<(EventAction, String, Option<String>)>, d: (EventAction, String, Option<String>))
    ensures
        desc_views(ds.push(d)) == desc_views(ds).push(
            EventDesc {
                action: d.0,
                memory_id: Some(d.1@),
                data: match d.2 {
                    Some(s) => Some(s@),
                    None => None,
                },
            },
        ),
{
    broadcast use lemma_desc_views_index;

    assert(desc_views(ds.push(d)) =~= desc_views(ds).push(
        EventDesc {
            action: d.0,
            memory_id: Some(d.1@),
            data: match d.2 {
                Some(s) => Some(s@),
                None => None,
            },
        },
    ));
}

/// Filtering keeps distinct ids distinct.
proof fn lemma_filter_keeps_distinct_ids(ms: Seq<MemoryView>, pred: spec_fn(MemoryView) -> bool)
    requires
        forall|i: int, j: int| 0 <= i < j < ms.len() ==> ms[i].id != ms[j].id,
    ensures
        forall|i: int, j: int|
            0 <= i < j < ms.filter(pred).len() ==> ms.filter(pred)[i].id != ms.filter(pred)[j].id,
    decreases ms.len(),
{
    reveal(Seq::filter);
    if ms.len() > 0 {
        let dl = ms.drop_last();
        let last = ms.last();
        lemma_filter_keeps_distinct_ids(dl, pred);
        let fd = dl.filter(pred);
        assert forall|k: int| 0 <= k < fd.len() implies fd[k].id != last.id by {
            Seq::lemma_filter_pred(dl, pred, k);
            assert(fd.contains(fd[k]));
            Seq::lemma_filter_contains_rev(dl, pred, fd[k]);
            let idx = choose|idx: int| 0 <= idx < dl.len() && dl[idx] == fd[k];
            assert(ms[idx] == fd[k]);
            assert(ms[idx].id != ms[ms.len() - 1].id);
        }
        if pred(last) {
            assert(ms.filter(pred) == fd.push(last));
        } else {
            assert(ms.filter(pred) == fd);
        }
    }
}

/// Splitting a batch of entries numbers the halves consecutively.
proof fn lemma_number_events_add(base: int, a: Seq<EventDesc>, b: Seq<EventDesc>, now: int)
    ensures
        number_events(base, a + b, now) == number_events(base, a, now) + number_events(
            base + a.len(),
            b,
            now,
        ),
{
    assert(number_events(base, a + b, now) =~= number_events(base, a, now) + number_events(
        base + a.len(),
        b,
        now,
    ));
}

impl Store {
    /// Classifies every memory against the thresholds, without changing
    /// anything: the expired, generation-0-promoted and
    /// generation-1-promoted memories as reported tuples, and the ledger
    /// entries the decisions would append, in order.
    #[verifier::loop_isolation(false)]
    #[verifier::rlimit(60)]
    fn gc_classify(
        &self,
        min_reviews: u32,
        min_ratio_hundredths: u32,
        promote_threshold: u32,
    ) -> (r: (
        Vec<(String, String, u32, u32)>,
        Vec<(String, String, u32, u32)>,
        Vec<(String, String, u32, u32)>,
        Vec<(EventAction, String, Option<String>)>,
        Vec<(EventAction, String, Option<String>)>,
    ))
        ensures
            ({
                let p = GcParams {
                    min_reviews: min_reviews as int,
                    min_ratio_hundredths: min_ratio_hundredths as int,
                    promote_threshold: promote_threshold as int,
                };
                &&& tuple_views(r.0@) == self@.memories.filter(gc_expire_p(p)).map_values(gc_tuple_f())
                &&& tuple_views(r.1@) == self@.memories.filter(gc_promote01_p(p)).map_values(gc_tuple_f())
                &&& tuple_views(r.2@) == self@.memories.filter(gc_promote12_p(p)).map_values(gc_tuple_f())
                &&& desc_views(r.3@) == self@.memories.filter(gc_pass1_p(p)).map_values(gc_desc1_f(p))
                &&& desc_views(r.4@) == self@.memories.filter(gc_promote12_p(p)).map_values(gc_desc12_f())
            }),
    {
        let ghost p = GcParams {
            min_reviews: min_reviews as int,
            min_ratio_hundredths: min_ratio_hundredths as int,
            promote_threshold: promote_threshold as int,
        };
        let ghost mems = self@.memories;

        let mut expired: Vec<(String, String, u32, u32)> = Vec::new();
        let mut promoted01: Vec<(String, String, u32, u32)> = Vec::new();
        let mut promoted12: Vec<(String, String, u32, u32)> = Vec::new();
        let mut descs1: Vec<(EventAction, String, Option<String>)> = Vec::new();
        let mut descs12: Vec<(EventAction, String, Option<String>)> = Vec::new();

        let n = self.memories.len();
        let mut i: usize = 0;
        proof {
            assert(mems.take(0) =~= Seq::<MemoryView>::empty());
            reveal(Seq::filter);
            assert(tuple_views(expired@) =~= mems.take(0).filter(gc_expire_p(p)).map_values(gc_tuple_f()));
            assert(tuple_views(promoted01@) =~= mems.take(0).filter(gc_promote01_p(p)).map_values(gc_tuple_f()));
            assert(tuple_views(promoted12@) =~= mems.take(0).filter(gc_promote12_p(p)).map_values(gc_tuple_f()));
            assert(desc_views(descs1@) =~= mems.take(0).filter(gc_pass1_p(p)).map_values(gc_desc1_f(p)));
            assert(desc_views(descs12@) =~= mems.take(0).filter(gc_promote12_p(p)).map_values(gc_desc12_f()));
        }
        while i < n
            invariant
                i <= n,
                n == mems.len(),
                tuple_views(expired@) == mems.take(i as int).filter(gc_expire_p(p)).map_values(gc_tuple_f()),
                tuple_views(promoted01@) == mems.take(i as int).filter(gc_promote01_p(p)).map_values(gc_tuple_f()),
                tuple_views(promoted12@) == mems.take(i as int).filter(gc_promote12_p(p)).map_values(gc_tuple_f()),
                desc_views(descs1@) == mems.take(i as int).filter(gc_pass1_p(p)).map_values(gc_desc1_f(p)),
                desc_views(descs12@) == mems.take(i as int).filter(gc_promote12_p(p)).map_values(gc_desc12_f()),
            decreases n - i,
        {
            let m = &self.memories[i];
            let ghost mv = mems[i as int];
            proof {
                broadcast use lemma_mem_views_index;

                assert(m@ == mv);
            }
            let candidate = m.generation == 0 && m.review_count >= min_reviews;
            let is_low = if m.review_count == 0 {
                min_ratio_hundredths > 0
            } else {
                proof {
                    lemma_mul_upper_bound(
                        m.review_count as int,
                        0xffff_ffff,
                        min_ratio_hundredths as int,
                        0xffff_ffff,
                    );
                }
                (m.tap_count as u64) * 100 < (m.review_count as u64) * (min_ratio_hundredths as u64)
            };
            let expire_now = candidate && is_low;
            let promote01_now = candidate && !is_low && m.tap_count >= promote_threshold;
            let promote12_now = m.generation == 1 && (m.tap_count as u64) >= 2 * (promote_threshold as u64);
            proof {
                assert(expire_now == gc_expire(mv, p));
                assert(promote01_now == gc_promote01(mv, p));
                assert(promote12_now == gc_promote12(mv, p));
                lemma_filter_take_step(mems, i as int, gc_expire_p(p));
                lemma_filter_take_step(mems, i as int, gc_promote01_p(p));
                lemma_filter_take_step(mems, i as int, gc_promote12_p(p));
                lemma_filter_take_step(mems, i as int, gc_pass1_p(p));
            }
            if expire_now {
                let ghost old_t = expired@;
                let ghost old_d = descs1@;
                let h = if m.review_count == 0 {
                    0
                } else {
                    digits::compute_ratio_hundredths(m.tap_count, m.review_count)
                };
                let data = payload::build_expire_payload(h);
                expired.push((m.id.clone(), m.content.clone(), m.tap_count, m.review_count));
                descs1.push((EventAction::Expire, m.id.clone(), Some(data)));
                proof {
                    lemma_tuple_views_push(old_t, expired@[expired@.len() - 1]);
                    lemma_desc_views_push(old_d, descs1@[descs1@.len() - 1]);
                    assert(h as int == ratio_h_of(mv));
                    assert(desc_views(descs1@)[descs1@.len() - 1] == gc_desc1(mv, p));
                }
            } else if promote01_now {
                let ghost old_t = promoted01@;
                let ghost old_d = descs1@;
                promoted01.push((m.id.clone(), m.content.clone(), m.tap_count, m.review_count));
                descs1.push((EventAction::Promote, m.id.clone(), Some(payload::build_promote01_payload())));
                proof {
                    lemma_tuple_views_push(old_t, promoted01@[promoted01@.len() - 1]);
                    lemma_desc_views_push(old_d, descs1@[descs1@.len() - 1]);
                    assert(desc_views(descs1@)[descs1@.len() - 1] == gc_desc1(mv, p));
                }
            }
            if promote12_now {
                let ghost old_t = promoted12@;
                let ghost old_d = descs12@;
                promoted12.push((m.id.clone(), m.content.clone(), m.tap_count, m.review_count));
                descs12.push((EventAction::Promote, m.id.clone(), Some(payload::build_promote12_payload())));
                proof {
                    lemma_tuple_views_push(old_t, promoted12@[promoted12@.len() - 1]);
                    lemma_desc_views_push(old_d, descs12@[descs12@.len() - 1]);
                    assert(desc_views(descs12@)[descs12@.len() - 1] == gc_desc12(mv));
                }
            }
            proof {
                assert(tuple_views(expired@) =~= mems.take(i + 1).filter(gc_expire_p(p)).map_values(gc_tuple_f()));
                assert(tuple_views(promoted01@) =~= mems.take(i + 1).filter(gc_promote01_p(p)).map_values(gc_tuple_f()));
                assert(tuple_views(promoted12@) =~= mems.take(i + 1).filter(gc_promote12_p(p)).map_values(gc_tuple_f()));
                assert(desc_views(descs1@) =~= mems.take(i + 1).filter(gc_pass1_p(p)).map_values(gc_desc1_f(p)));
                assert(desc_views(descs12@) =~= mems.take(i + 1).filter(gc_promote12_p(p)).map_values(gc_desc12_f()));
            }
            i += 1;
        }
        proof {
            assert(mems.take(n as int) =~= mems);
        }
        (expired, promoted01, promoted12, descs1, descs12)
    }

    /// The memory records as the decisions leave them, without changing
    /// anything: expired records are dropped, promotions applied, order
    /// kept.
    #[verifier::loop_isolation(false)]
    #[verifier::rlimit(60)]
    fn gc_rebuild(
        &self,
        min_reviews: u32,
        min_ratio_hundredths: u32,
        promote_threshold: u32,
    ) -> (kept: Vec<Memory>)
        ensures
            ({
                let p = GcParams {
                    min_reviews: min_reviews as int,
                    min_ratio_hundredths: min_ratio_hundredths as int,
                    promote_threshold: promote_threshold as int,
                };
                mem_views(kept@) == spec_gc_memories(self@.memories, p)
            }),
    {
        let ghost p = GcParams {
            min_reviews: min_reviews as int,
            min_ratio_hundredths: min_ratio_hundredths as int,
            promote_threshold: promote_threshold as int,
        };
        let ghost mems = self@.memories;
        let mut kept: Vec<Memory> = Vec::new();
        let n = self.memories.len();
        let mut i: usize = 0;
        proof {
            assert(mems.take(0) =~= Seq::<MemoryView>::empty());
            reveal(Seq::filter);
            assert(mem_views(kept@) =~= spec_gc_memories(mems.take(0), p));
        }
        while i < n
            invariant
                i <= n,
                n == mems.len(),
                mem_views(kept@) == spec_gc_memories(mems.take(i as int), p),
            decreases n - i,
        {
            let m = &self.memories[i];
            let ghost mv = mems[i as int];
            proof {
                broadcast use lemma_mem_views_index;

                assert(m@ == mv);
                lemma_filter_take_step(mems, i as int, gc_keep_p(p));
            }
            let candidate = m.generation == 0 && m.review_count >= min_reviews;
            let is_low = if m.review_count == 0 {
                min_ratio_hundredths > 0
            } else {
                proof {
                    lemma_mul_upper_bound(
                        m.review_count as int,
                        0xffff_ffff,
                        min_ratio_hundredths as int,
                        0xffff_ffff,
                    );
                }
                (m.tap_count as u64) * 100 < (m.review_count as u64) * (min_ratio_hundredths as u64)
            };
            let expire_now = candidate && is_low;
            let promote01_now = candidate && !is_low && m.tap_count >= promote_threshold;
            let promote12_now = m.generation == 1 && (m.tap_count as u64) >= 2 * (promote_threshold as u64);
            if !expire_now {
                let ghost old_kept = kept@;
                let mut kept_m = m.duplicate();
                if promote01_now {
                    kept_m.generation = 1;
                } else if promote12_now {
                    kept_m.generation = 2;
                }
                kept.push(kept_m);
                proof {
                    broadcast use lemma_mem_views_index;

                    assert(kept@[kept@.len() - 1]@ == gc_mem_after(mv, p));
                    lemma_mem_views_push(old_kept, kept@[kept@.len() - 1]);
                    lemma_map_values_push(mems.take(i as int).filter(gc_keep_p(p)), gc_mem_after_f(p), mv);
                    assert(mem_views(kept@) =~= spec_gc_memories(mems.take(i + 1), p));
                }
            } else {
                proof {
                    assert(mem_views(kept@) =~= spec_gc_memories(mems.take(i + 1), p));
                }
            }
            i += 1;
        }
        proof {
            assert(mems.take(n as int) =~= mems);
        }
        kept
    }

    /// Appends the pending ledger entries, in order.
    #[verifier::loop_isolation(false)]
    fn gc_log_descs(&mut self, descs: &Vec<(EventAction, String, Option<String>)>, now: i64)
        requires
            old(self)@.events.len() + descs@.len() <= i64::MAX,
        ensures
            final(self)@.memories == old(self)@.memories,
            final(self)@.events == old(self)@.events + number_events(
                old(self)@.events.len() as int,
                desc_views(descs@),
                now as int,
            ),
    {
        let ghost pre = self@;
        let dn = descs.len();
        let mut k: usize = 0;
        proof {
            assert(pre.events + number_events(pre.events.len() as int, desc_views(descs@).take(0), now as int)
                =~= pre.events);
        }
        while k < dn
            invariant
                k <= dn,
                dn == descs@.len(),
                self@.memories == pre.memories,
                self@.events == pre.events + number_events(
                    pre.events.len() as int,
                    desc_views(descs@).take(k as int),
                    now as int,
                ),
            decreases dn - k,
        {
            let d = &descs[k];
            self.log_event(
                d.0,
                Some(d.1.as_str()),
                match &d.2 {
                    Some(s) => Some(s.as_str()),
                    None => None,
                },
                now,
            );
            proof {
                broadcast use lemma_desc_views_index;

                assert(self@.events =~= pre.events + number_events(
                    pre.events.len() as int,
                    desc_views(descs@).take(k + 1),
                    now as int,
                ));
            }
            k += 1;
        }
        proof {
            assert(desc_views(descs@).take(dn as int) =~= desc_views(descs@));
        }
    }

    /// Runs one garbage-collection pass with the given thresholds, the ratio
    /// threshold in hundredths. The classification is computed over the
    /// state as the pass finds it; with `dry_run` the exact same expired and
    /// promoted lists are reported and nothing changes, otherwise expired
    /// records are deleted, promotions are applied, and one EXPIRE or
    /// PROMOTE event is appended per decision.
    #[verifier::loop_isolation(false)]
    #[verifier::rlimit(60)]
    pub fn run_gc(
        &mut self,
        min_reviews: u32,
        min_ratio_hundredths: u32,
        promote_threshold: u32,
        dry_run: bool,
        now: i64,
    ) -> (r: GcResult)
        requires
            wf(old(self)@),
            old(self)@.events.len() + old(self)@.memories.len() * 2 < i64::MAX,
        ensures
            ({
                let p = GcParams {
                    min_reviews: min_reviews as int,
                    min_ratio_hundredths: min_ratio_hundredths as int,
                    promote_threshold: promote_threshold as int,
                };
                &&& tuple_views(r.expired@) == gc_expired_list(old(self)@.memories, p)
                &&& tuple_views(r.promoted@) == gc_promoted_list(old(self)@.memories, p)
                &&& dry_run ==> final(self)@ == old(self)@
                &&& !dry_run ==> final(self)@.memories == spec_gc_memories(old(self)@.memories, p)
                &&& !dry_run ==> final(self)@.events == old(self)@.events + number_events(
                    old(self)@.events.len() as int,
                    gc_descs(old(self)@.memories, p),
                    now as int,
                )
                &&& wf(final(self)@)
            }),
    {
        let ghost p = GcParams {
            min_reviews: min_reviews as int,
            min_ratio_hundredths: min_ratio_hundredths as int,
            promote_threshold: promote_threshold as int,
        };
        let ghost pre = self@;

        let (expired, promoted01, mut promoted12, descs1, descs12) =
            self.gc_classify(min_reviews, min_ratio_hundredths, promote_threshold);

        if !dry_run {
            let kept = self.gc_rebuild(min_reviews, min_ratio_hundredths, promote_threshold);
            self.memories = kept;
            proof {
                assert(self@.memories =~= spec_gc_memories(pre.memories, p));
                assert(self@.events =~= pre.events);
                Seq::lemma_filter_len(pre.memories, gc_pass1_p(p));
                Seq::lemma_filter_len(pre.memories, gc_promote12_p(p));
                assert(desc_views(descs1@).len() == descs1@.len());
                assert(desc_views(descs12@).len() == descs12@.len());
                assert(descs1@.len() <= pre.memories.len());
                assert(descs12@.len() <= pre.memories.len());
            }
            self.gc_log_descs(&descs1, now);
            self.gc_log_descs(&descs12, now);
            proof {
                lemma_number_events_add(
                    pre.events.len() as int,
                    desc_views(descs1@),
                    desc_views(descs12@),
                    now as int,
                );
                assert(self@.events =~= pre.events + number_events(
                    pre.events.len() as int,
                    gc_descs(pre.memories, p),
                    now as int,
                ));
                // Well-formedness is preserved: kept ids stay distinct, new
                // generations stay in range, ledger numbering stays dense.
                lemma_filter_keeps_distinct_ids(pre.memories, gc_keep_p(p));
                let fin = self@;
                let f = pre.memories.filter(gc_keep_p(p));
                assert forall|a: int, b: int|
                    0 <= a < b < fin.memories.len() implies fin.memories[a].id != fin.memories[b].id by {
                    assert(fin.memories[a] == gc_mem_after(f[a], p));
                    assert(fin.memories[b] == gc_mem_after(f[b], p));
                }
                assert forall|a: int|
                    0 <= a < fin.memories.len() implies 0 <= #[trigger] fin.memories[a].generation <= 2 by {
                    assert(fin.memories[a] == gc_mem_after(f[a], p));
                    Seq::lemma_filter_pred(pre.memories, gc_keep_p(p), a);
                    assert(f.contains(f[a]));
                    Seq::lemma_filter_contains_rev(pre.memories, gc_keep_p(p), f[a]);
                    let idx = choose|idx: int| 0 <= idx < pre.memories.len() && pre.memories[idx] == f[a];
                    assert(0 <= pre.memories[idx].generation <= 2);
                }
            }
        }

        let mut promoted = promoted01;
        let ghost promoted01_snap = promoted@;
        let ghost promoted12_snap = promoted12@;
        promoted.append(&mut promoted12);
        proof {
            assert(tuple_views(promoted@) =~= tuple_views(promoted01_snap) + tuple_views(
                promoted12_snap,
            ));
        }
        GcResult { expired, promoted }
    }
}

} // verus!
