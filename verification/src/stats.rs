//! Store statistics: totals, per-generation counts, tap totals and a
//! per-scope breakdown.

use vstd::prelude::*;
use crate::sort::{insertion_sort, SortOrd};
use crate::store::{lemma_filter_take_step, Memory, Store};
use crate::text;

verus! {

/// A summary of the store's memory records.
#[derive(Debug)]
pub struct MemoryStats {
    /// How many memories are held.
    pub total: u64,
    /// How many stand at generation 0, 1 and 2.
    pub by_generation: [u64; 3],
    /// The sum of all tap counters (saturating at the machine limit).
    pub total_taps: u64,
    /// How many memories were never tapped.
    pub never_tapped: u64,
    /// Each scope with its memory count, ordered by count descending.
    pub scopes: Vec<(String, u64)>,
}

pub open spec fn gen_pred(g: int) -> spec_fn(Memory) -> bool {
    |m: Memory| m@.generation == g
}

pub open spec fn never_tapped_pred() -> spec_fn(Memory) -> bool {
    |m: Memory| m@.tap_count == 0
}

pub open spec fn scope_pred(s: Seq<char>) -> spec_fn(Memory) -> bool {
    |m: Memory| m@.scope == s
}

/// Whether some row lists the scope.
pub open spec fn scope_listed_in(rows: Seq<(String, u64)>, s: Seq<char>) -> bool {
    exists|k: int| 0 <= k < rows.len() && (#[trigger] rows[k]).0@ == s
}

/// How many memories carry the scope.
pub open spec fn scope_count(ms: Seq<Memory>, s: Seq<char>) -> int {
    ms.filter(scope_pred(s)).len() as int
}

/// The sum of all tap counters.
pub open spec fn sum_taps(ms: Seq<Memory>) -> int
    decreases ms.len(),
{
    if ms.len() == 0 {
        0
    } else {
        sum_taps(ms.drop_last()) + ms.last()@.tap_count
    }
}

/// Scope rows are ordered by count descending.
impl SortOrd for (String, u64) {
    open spec fn le_spec(self, other: Self) -> bool {
        self.1 >= other.1
    }

    proof fn lemma_total(a: Self, b: Self) {
    }

    proof fn lemma_trans(a: Self, b: Self, c: Self) {
    }

    fn le(&self, other: &Self) -> (r: bool) {
        self.1 >= other.1
    }
}

/// The index of the row holding scope `s`, or the row count if absent.
fn find_scope_row(rows: &Vec<(String, u64)>, s: &str) -> (r: usize)
    ensures
        r <= rows@.len(),
        forall|k: int| 0 <= k < r ==> (#[trigger] rows@[k]).0@ != s@,
        r < rows@.len() ==> rows@[r as int].0@ == s@,
{
    let n = rows.len();
    let mut k: usize = 0;
    while k < n
        invariant
            k <= n,
            n == rows@.len(),
            forall|j: int| 0 <= j < k ==> (#[trigger] rows@[j]).0@ != s@,
        decreases n - k,
    {
        if text::str_eq(rows[k].0.as_str(), s) {
            return k;
        }
        k += 1;
    }
    n
}

impl Store {
    /// Statistics over the memory records: the total count, the count per
    /// generation, the (saturating) sum of tap counters, the count of
    /// never-tapped memories, and every scope with its count, ordered by
    /// count descending.
    #[verifier::loop_isolation(false)]
    #[verifier::rlimit(60)]
    pub fn get_stats(&self) -> (r: MemoryStats)
        ensures
            r.total == self.memories@.len(),
            r.by_generation@.len() == 3,
            forall|g: int|
                0 <= g < 3 ==> #[trigger] r.by_generation@[g] as int == self.memories@.filter(
                    gen_pred(g),
                ).len(),
            sum_taps(self.memories@) <= u64::MAX ==> r.total_taps == sum_taps(self.memories@),
            sum_taps(self.memories@) > u64::MAX ==> r.total_taps == u64::MAX,
            r.never_tapped as int == self.memories@.filter(never_tapped_pred()).len(),
            forall|k: int|
                0 <= k < r.scopes@.len() ==> (#[trigger] r.scopes@[k]).1 as int == scope_count(
                    self.memories@,
                    r.scopes@[k].0@,
                ),
            forall|k1: int, k2: int|
                0 <= k1 < k2 < r.scopes@.len() ==> (#[trigger] r.scopes@[k1]).0@ != (
                #[trigger] r.scopes@[k2]).0@,
            forall|i: int|
                0 <= i < self.memories@.len() ==> scope_listed_in(
                    r.scopes@,
                    (#[trigger] self.memories@[i])@.scope,
                ),
            forall|k1: int, k2: int|
                0 <= k1 < k2 < r.scopes@.len() ==> (#[trigger] r.scopes@[k1]).1 >= (
                #[trigger] r.scopes@[k2]).1,
    {
        let ghost ms = self.memories@;
        let n = self.memories.len();
        let mut g0: u64 = 0;
        let mut g1: u64 = 0;
        let mut g2: u64 = 0;
        let mut taps: u64 = 0;
        let mut never: u64 = 0;
        let mut rows: Vec<(String, u64)> = Vec::new();
        let mut i: usize = 0;
        proof {
            reveal(Seq::filter);
            assert(ms.take(0) =~= Seq::<Memory>::empty());
            assert(ms.take(0).filter(gen_pred(0)) =~= Seq::<Memory>::empty());
            assert(ms.take(0).filter(gen_pred(1)) =~= Seq::<Memory>::empty());
            assert(ms.take(0).filter(gen_pred(2)) =~= Seq::<Memory>::empty());
            assert(ms.take(0).filter(never_tapped_pred()) =~= Seq::<Memory>::empty());
        }
        while i < n
            invariant
                i <= n,
                n == ms.len(),
                g0 as int == ms.take(i as int).filter(gen_pred(0)).len(),
                g1 as int == ms.take(i as int).filter(gen_pred(1)).len(),
                g2 as int == ms.take(i as int).filter(gen_pred(2)).len(),
                never as int == ms.take(i as int).filter(never_tapped_pred()).len(),
                g0 <= i && g1 <= i && g2 <= i && never <= i,
                taps as int == (if sum_taps(ms.take(i as int)) <= u64::MAX {
                    sum_taps(ms.take(i as int))
                } else {
                    u64::MAX as int
                }),
                forall|k: int|
                    0 <= k < rows@.len() ==> (#[trigger] rows@[k]).1 as int == scope_count(
                        ms.take(i as int),
                        rows@[k].0@,
                    ),
                forall|k: int| 0 <= k < rows@.len() ==> (#[trigger] rows@[k]).1 <= i,
                forall|k1: int, k2: int|
                    0 <= k1 < k2 < rows@.len() ==> (#[trigger] rows@[k1]).0@ != (
                    #[trigger] rows@[k2]).0@,
                forall|j: int|
                    0 <= j < i ==> scope_listed_in(rows@, (#[trigger] ms[j])@.scope),
            decreases n - i,
        {
            let m = &self.memories[i];
            let ghost mi = ms[i as int];
            proof {
                lemma_filter_take_step(ms, i as int, gen_pred(0));
                lemma_filter_take_step(ms, i as int, gen_pred(1));
                lemma_filter_take_step(ms, i as int, gen_pred(2));
                lemma_filter_take_step(ms, i as int, never_tapped_pred());
                assert(ms.take(i + 1).drop_last() =~= ms.take(i as int));
                assert(ms.take(i + 1).last() == mi);
            }
            if m.generation == 0 {
                g0 = g0 + 1;
            } else if m.generation == 1 {
                g1 = g1 + 1;
            } else if m.generation == 2 {
                g2 = g2 + 1;
            }
            if m.tap_count == 0 {
                never = never + 1;
            }
            let t: u64 = m.tap_count as u64;
            if taps <= u64::MAX - t {
                taps = taps + t;
            } else {
                taps = u64::MAX;
            }

            let ghost old_rows = rows@;
            let k = find_scope_row(&rows, m.scope.as_str());
            if k < rows.len() {
                let s0 = rows[k].0.clone();
                let c = rows[k].1;
                rows[k] = (s0, c + 1);
                proof {
                    assert(rows@ =~= old_rows.update(k as int, (rows@[k as int].0, (c + 1) as u64)));
                }
            } else {
                rows.push((m.scope.clone(), 1));
            }
            proof {
                // Each row's count follows the growing prefix.
                assert forall|kk: int| 0 <= kk < rows@.len() implies (#[trigger] rows@[kk]).1 as int
                    == scope_count(ms.take(i + 1), rows@[kk].0@) by {
                    lemma_filter_take_step(ms, i as int, scope_pred(rows@[kk].0@));
                    if k < old_rows.len() {
                        // Updated an existing row.
                        if kk == k {
                            assert(rows@[kk].0@ == mi@.scope);
                        } else {
                            assert(rows@[kk] == old_rows[kk]);
                            assert(old_rows[kk].0@ != mi@.scope) by {
                                if kk < k {
                                    assert(old_rows[kk].0@ != old_rows[k as int].0@);
                                } else {
                                    assert(old_rows[k as int].0@ != old_rows[kk].0@);
                                }
                            }
                        }
                    } else {
                        // Appended a fresh row: its scope was never seen.
                        if kk == old_rows.len() {
                            assert(rows@[kk].0@ == mi@.scope);
                            assert(scope_count(ms.take(i as int), mi@.scope) == 0) by {
                                let fs = ms.take(i as int).filter(scope_pred(mi@.scope));
                                if fs.len() > 0 {
                                    Seq::lemma_filter_pred(ms.take(i as int), scope_pred(mi@.scope), 0);
                                    assert(fs.contains(fs[0]));
                                    Seq::lemma_filter_contains_rev(
                                        ms.take(i as int),
                                        scope_pred(mi@.scope),
                                        fs[0],
                                    );
                                    let j = choose|j: int|
                                        0 <= j < ms.take(i as int).len() && ms.take(i as int)[j]
                                            == fs[0];
                                    assert(ms[j]@.scope == mi@.scope);
                                    let kx = choose|kx: int|
                                        0 <= kx < old_rows.len() && (#[trigger] old_rows[kx]).0@
                                            == ms[j]@.scope;
                                    assert(old_rows[kx].0@ != mi@.scope);
                                    assert(false);
                                }
                            }
                        } else {
                            assert(rows@[kk] == old_rows[kk]);
                            assert(old_rows[kk].0@ != mi@.scope);
                        }
                    }
                }
                // Every scope seen so far still has its row.
                assert forall|j: int|
                    0 <= j < i + 1 implies scope_listed_in(rows@, (#[trigger] ms[j])@.scope) by {
                    if j == i {
                        if k < old_rows.len() {
                            assert(rows@[k as int].0@ == mi@.scope);
                        } else {
                            assert(rows@[old_rows.len() as int].0@ == mi@.scope);
                        }
                    } else {
                        assert(scope_listed_in(old_rows, ms[j]@.scope));
                        let k0 = choose|k0: int|
                            0 <= k0 < old_rows.len() && (#[trigger] old_rows[k0]).0@ == ms[j]@.scope;
                        assert(rows@[k0].0 == old_rows[k0].0);
                        assert(rows@[k0].0@ == ms[j]@.scope);
                    }
                }
            }
            i += 1;
        }
        proof {
            assert(ms.take(n as int) =~= ms);
        }

        let ghost pre_sort = rows@;
        insertion_sort(&mut rows);
        proof {
            broadcast use vstd::seq_lib::group_to_multiset_ensures;

            // Sorting permutes the rows; their per-row facts carry over.
            assert forall|k: int| 0 <= k < rows@.len() implies {
                &&& (#[trigger] rows@[k]).1 as int == scope_count(ms, rows@[k].0@)
            } by {
                assert(rows@.contains(rows@[k]));
                assert(rows@.to_multiset().count(rows@[k]) > 0);
                assert(pre_sort.to_multiset().count(rows@[k]) > 0);
                assert(pre_sort.contains(rows@[k]));
                let j = choose|j: int| 0 <= j < pre_sort.len() && pre_sort[j] == rows@[k];
                assert(pre_sort[j].1 as int == scope_count(ms, pre_sort[j].0@));
            }
            // Distinct scopes stay distinct.
            assert(pre_sort.no_duplicates()) by {
                assert forall|a: int, b: int|
                    0 <= a < pre_sort.len() && 0 <= b < pre_sort.len() && a != b implies pre_sort[a]
                    != pre_sort[b] by {
                    if a < b {
                        assert(pre_sort[a].0@ != pre_sort[b].0@);
                    } else {
                        assert(pre_sort[b].0@ != pre_sort[a].0@);
                    }
                }
            }
            pre_sort.lemma_multiset_has_no_duplicates();
            rows@.lemma_multiset_has_no_duplicates_conv();
            assert forall|k1: int, k2: int|
                0 <= k1 < k2 < rows@.len() implies (#[trigger] rows@[k1]).0@ != (
            #[trigger] rows@[k2]).0@ by {
                assert(rows@[k1] != rows@[k2]);
                if rows@[k1].0@ == rows@[k2].0@ {
                    assert(rows@.contains(rows@[k1]));
                    assert(rows@.to_multiset().count(rows@[k1]) > 0);
                    assert(pre_sort.to_multiset().count(rows@[k1]) > 0);
                    assert(pre_sort.contains(rows@[k1]));
                    assert(rows@.contains(rows@[k2]));
                    assert(rows@.to_multiset().count(rows@[k2]) > 0);
                    assert(pre_sort.to_multiset().count(rows@[k2]) > 0);
                    assert(pre_sort.contains(rows@[k2]));
                    let j1 = choose|j: int| 0 <= j < pre_sort.len() && pre_sort[j] == rows@[k1];
                    let j2 = choose|j: int| 0 <= j < pre_sort.len() && pre_sort[j] == rows@[k2];
                    assert(j1 != j2);
                    if j1 < j2 {
                        assert(pre_sort[j1].0@ != pre_sort[j2].0@);
                    } else {
                        assert(pre_sort[j2].0@ != pre_sort[j1].0@);
                    }
                    assert(false);
                }
            }
            // Every memory's scope still has its row.
            assert forall|ii: int|
                0 <= ii < ms.len() implies scope_listed_in(rows@, (#[trigger] ms[ii])@.scope) by {
                assert(scope_listed_in(pre_sort, ms[ii]@.scope));
                let k0 = choose|k: int|
                    0 <= k < pre_sort.len() && (#[trigger] pre_sort[k]).0@ == ms[ii]@.scope;
                assert(pre_sort.contains(pre_sort[k0]));
                assert(pre_sort.to_multiset().count(pre_sort[k0]) > 0);
                assert(rows@.to_multiset().count(pre_sort[k0]) > 0);
                assert(rows@.contains(pre_sort[k0]));
                let k = choose|k: int| 0 <= k < rows@.len() && rows@[k] == pre_sort[k0];
                assert(rows@[k].0@ == ms[ii]@.scope);
            }
        }

        proof {
            // Bridge the sorted order and completeness facts to the shapes
            // the contract states.
            assert forall|k1: int, k2: int|
                0 <= k1 < k2 < rows@.len() implies (#[trigger] rows@[k1]).1 >= (
            #[trigger] rows@[k2]).1 by {
                assert(rows@[k1].le_spec(rows@[k2]));
            }
            assert forall|ii: int|
                0 <= ii < self.memories@.len() implies scope_listed_in(
                rows@,
                (#[trigger] self.memories@[ii])@.scope,
            ) by {
                assert(scope_listed_in(rows@, ms[ii]@.scope));
            }
        }
        MemoryStats {
            total: n as u64,
            by_generation: [g0, g1, g2],
            total_taps: taps,
            never_tapped: never,
            scopes: rows,
        }
    }
}

} // verus!
