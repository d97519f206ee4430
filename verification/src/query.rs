//! Aggregation queries over the store: hot memories in a recent window.

use vstd::prelude::*;
use crate::sort::{insertion_sort, seq_sorted, SortOrd};
use crate::store::{Event, EventAction, Memory, Store};

verus! {

/// A memory with high recent tap activity.
#[derive(Debug)]
pub struct HotMemory {
    pub id: String,
    pub content: String,
    /// TAP events inside the queried window.
    pub recent_taps: u64,
    /// Lifetime tap counter.
    pub total_taps: u32,
}

/// Whether an event is a TAP of the given memory inside the window.
pub open spec fn tap_in_window(e: Event, id: Seq<char>, cutoff: int, now: int) -> bool {
    e.action == EventAction::Tap && e@.memory_id == Some(id) && cutoff <= e.timestamp <= now
}

pub open spec fn tap_in_window_f(id: Seq<char>, cutoff: int, now: int) -> spec_fn(Event) -> bool {
    |e: Event| tap_in_window(e, id, cutoff, now)
}

/// How many TAP events the memory received inside the window.
pub open spec fn recent_taps_of(es: Seq<Event>, id: Seq<char>, cutoff: int, now: int) -> int {
    es.filter(tap_in_window_f(id, cutoff, now)).len() as int
}

/// The report entry for a memory.
pub open spec fn hot_of(m: Memory, es: Seq<Event>, cutoff: int, now: int) -> HotMemory {
    HotMemory {
        id: m.id,
        content: m.content,
        recent_taps: recent_taps_of(es, m.id@, cutoff, now) as u64,
        total_taps: m.tap_count,
    }
}

pub open spec fn hot_of_f(es: Seq<Event>, cutoff: int, now: int) -> spec_fn(Memory) -> HotMemory {
    |m: Memory| hot_of(m, es, cutoff, now)
}

/// Whether a memory qualifies: at least one TAP inside the window.
pub open spec fn hot_qualifies_f(es: Seq<Event>, cutoff: int, now: int) -> spec_fn(Memory) -> bool {
    |m: Memory| recent_taps_of(es, m.id@, cutoff, now) > 0
}

/// Every qualifying memory's report entry, in store order.
pub open spec fn hot_list(ms: Seq<Memory>, es: Seq<Event>, cutoff: int, now: int) -> Seq<HotMemory> {
    ms.filter(hot_qualifies_f(es, cutoff, now)).map_values(hot_of_f(es, cutoff, now))
}

/// Ordering of the report: recent taps descending, then lifetime taps
/// descending.
pub open spec fn hot_le(a: HotMemory, b: HotMemory) -> bool {
    ||| a.recent_taps > b.recent_taps
    ||| (a.recent_taps == b.recent_taps && a.total_taps >= b.total_taps)
}

impl SortOrd for HotMemory {
    open spec fn le_spec(self, other: Self) -> bool {
        hot_le(self, other)
    }

    proof fn lemma_total(a: Self, b: Self) {
    }

    proof fn lemma_trans(a: Self, b: Self, c: Self) {
    }

    fn le(&self, other: &Self) -> (r: bool) {
        if self.recent_taps != other.recent_taps {
            self.recent_taps > other.recent_taps
        } else {
            self.total_taps >= other.total_taps
        }
    }
}

impl Store {
    /// Counts the TAP events of one memory inside the window.
    #[verifier::loop_isolation(false)]
    fn count_recent_taps(&self, id: &str, cutoff: i64, now: i64) -> (r: u64)
        ensures
            r as int == recent_taps_of(self.events@, id@, cutoff as int, now as int),
    {
        let ghost pred = tap_in_window_f(id@, cutoff as int, now as int);
        let n = self.events.len();
        let mut cnt: u64 = 0;
        let mut i: usize = 0;
        proof {
            reveal(Seq::filter);
            assert(self.events@.take(0).filter(pred) =~= Seq::<Event>::empty());
        }
        while i < n
            invariant
                i <= n,
                cnt as int == self.events@.take(i as int).filter(pred).len(),
                cnt <= i,
            decreases n - i,
        {
            let e = &self.events[i];
            let sel = e.action == EventAction::Tap && (match &e.memory_id {
                Some(eid) => crate::text::str_eq(eid.as_str(), id),
                None => false,
            }) && cutoff <= e.timestamp && e.timestamp <= now;
            proof {
                crate::store::lemma_filter_take_step(self.events@, i as int, pred);
                assert(sel == pred(self.events@[i as int]));
            }
            if sel {
                cnt = cnt + 1;
            }
            i += 1;
        }
        proof {
            assert(self.events@.take(n as int) =~= self.events@);
        }
        cnt
    }

    /// The memories with TAP events inside `[now - window_secs, now]`, their
    /// window counts and lifetime counters, ordered by window count
    /// descending then lifetime count descending, cut to `limit` rows: every
    /// row reports a qualifying memory exactly, the rows are sorted, a cut
    /// never drops a row that outranks a kept one, and when nothing is cut
    /// the rows are exactly the qualifying memories.
    #[verifier::loop_isolation(false)]
    pub fn get_hot_memories(&self, window_secs: i64, limit: u32, now: i64) -> (r: Vec<HotMemory>)
        requires
            window_secs >= 0,
        ensures
            ({
                let hl = hot_list(
                    self.memories@,
                    self.events@,
                    now as int - window_secs as int,
                    now as int,
                );
                &&& r@.len() == (if limit as int <= hl.len() { limit as int } else { hl.len() as int })
                &&& seq_sorted(r@)
                &&& forall|k: int| 0 <= k < r@.len() ==> hl.contains(#[trigger] r@[k])
                &&& limit as int >= hl.len() ==> r@.to_multiset() == hl.to_multiset()
                &&& forall|x: HotMemory|
                    hl.to_multiset().count(x) > r@.to_multiset().count(x) ==> forall|k: int|
                        0 <= k < r@.len() ==> hot_le(#[trigger] r@[k], x)
            }),
    {
        let ghost cutoff_g = now as int - window_secs as int;
        let cutoff_wide: i128 = (now as i128) - (window_secs as i128);
        let ghost qual = hot_qualifies_f(self.events@, cutoff_g, now as int);
        let ghost mk = hot_of_f(self.events@, cutoff_g, now as int);
        let ghost hl = hot_list(self.memories@, self.events@, cutoff_g, now as int);

        let mut entries: Vec<HotMemory> = Vec::new();
        let n = self.memories.len();
        let mut i: usize = 0;
        proof {
            reveal(Seq::filter);
            assert(self.memories@.take(0).filter(qual) =~= Seq::<Memory>::empty());
            assert(entries@ =~= self.memories@.take(0).filter(qual).map_values(mk));
        }
        while i < n
            invariant
                i <= n,
                entries@ == self.memories@.take(i as int).filter(qual).map_values(mk),
            decreases n - i,
        {
            let m = &self.memories[i];
            // The window reaches below the representable timestamps only in
            // the ghost; clamp the executable cutoff.
            let cutoff: i64 = if cutoff_wide < (i64::MIN as i128) {
                i64::MIN
            } else {
                (now - window_secs) as i64
            };
            proof {
                if cutoff_wide >= i64::MIN as i128 {
                    assert(cutoff == cutoff_g);
                }
            }
            let cnt = if cutoff_wide < (i64::MIN as i128) {
                // Every timestamp lies inside such a window's lower bound.
                let c = self.count_recent_taps(m.id.as_str(), i64::MIN, now);
                proof {
                    assert(tap_in_window_f(m.id@, i64::MIN as int, now as int)
                        =~= tap_in_window_f(m.id@, cutoff_g, now as int)) by {
                        assert forall|e: Event|
                            tap_in_window(e, m.id@, i64::MIN as int, now as int) == tap_in_window(
                                e,
                                m.id@,
                                cutoff_g,
                                now as int,
                            ) by {}
                    }
                }
                c
            } else {
                self.count_recent_taps(m.id.as_str(), cutoff, now)
            };
            let ghost old_entries = entries@;
            proof {
                crate::store::lemma_filter_take_step(self.memories@, i as int, qual);
                assert((cnt > 0) == qual(self.memories@[i as int]));
            }
            if cnt > 0 {
                entries.push(HotMemory {
                    id: m.id.clone(),
                    content: m.content.clone(),
                    recent_taps: cnt,
                    total_taps: m.tap_count,
                });
                proof {
                    assert(entries@[entries@.len() - 1] == mk(self.memories@[i as int]));
                    crate::store::lemma_map_values_push(
                        self.memories@.take(i as int).filter(qual),
                        mk,
                        self.memories@[i as int],
                    );
                    assert(entries@ =~= self.memories@.take(i + 1).filter(qual).map_values(mk));
                }
            }
            i += 1;
        }
        proof {
            assert(self.memories@.take(n as int) =~= self.memories@);
            assert(entries@ == hl);
        }

        insertion_sort(&mut entries);
        let ghost sorted = entries@;
        let limit_us = limit as usize;
        entries.truncate(limit_us);
        proof {
            broadcast use vstd::seq_lib::group_to_multiset_ensures;

            if limit_us > sorted.len() {
                assert(entries@ == sorted);
            } else {
                assert(entries@ == sorted.take(limit_us as int));
            }
            if limit_us >= sorted.len() {
                assert(entries@ =~= sorted);
                assert(entries@.to_multiset() == hl.to_multiset());
            }
            assert forall|k: int| 0 <= k < entries@.len() implies hl.contains(#[trigger] entries@[k]) by {
                assert(entries@[k] == sorted[k]);
                assert(sorted.contains(sorted[k]));
                assert(sorted.to_multiset().count(sorted[k]) > 0);
                assert(hl.to_multiset().count(sorted[k]) > 0);
            }
            assert forall|x: HotMemory|
                hl.to_multiset().count(x) > entries@.to_multiset().count(x) implies forall|k: int|
                0 <= k < entries@.len() ==> hot_le(#[trigger] entries@[k], x) by {
                // A missing element sits in the dropped suffix, which every
                // kept row outranks.
                let kept = entries@;
                let cut = if limit_us <= sorted.len() { limit_us as int } else { sorted.len() as int };
                assert(kept == sorted.take(cut));
                assert(sorted =~= sorted.take(cut) + sorted.skip(cut));
                vstd::seq_lib::lemma_multiset_commutative(sorted.take(cut), sorted.skip(cut));
                assert(sorted.skip(cut).to_multiset().count(x) > 0);
                assert(sorted.skip(cut).contains(x));
                let j = choose|j: int| 0 <= j < sorted.skip(cut).len() && sorted.skip(cut)[j] == x;
                assert(sorted[cut + j] == x);
                assert forall|k: int| 0 <= k < kept.len() implies hot_le(#[trigger] kept[k], x) by {
                    assert(kept[k] == sorted[k]);
                    assert(sorted[k].le_spec(sorted[cut + j]));
                }
            }
        }
        entries
    }
}

} // verus!
