//! Activity rollups: ledger events grouped by local calendar day.

use vstd::prelude::*;
use vstd::arithmetic::div_mod::lemma_hoist_over_denominator;
use crate::sort::{insertion_sort, SortOrd};
use crate::store::{lemma_filter_take_step, Event, EventAction, Store};

verus! {

/// One day of activity: per-action event counts.
#[derive(Debug)]
pub struct ActivitySummary {
    /// The calendar day, rendered "YYYY-MM-DD".
    pub period: String,
    pub adds: u64,
    pub taps: u64,
    pub removes: u64,
    pub reviews: u64,
}

/// The calendar rendering of a day number (days since the Unix epoch).
pub uninterp spec fn civil_date_str(day: int) -> Seq<char>;

/// Relies on `chrono::Local` and `TimeZone::offset_from_utc_datetime`: the
/// machine's UTC offset at the given time, in seconds. The result depends
/// on the environment's time zone, so only its range is stated; a
/// `FixedOffset` always lies strictly within one day of UTC.
#[verifier::external_body]
fn local_offset_secs(ts: i64) -> (r: i32)
    ensures
        -86400 < r < 86400,
{
    match chrono::DateTime::<chrono::Utc>::from_timestamp(ts, 0) {
        Some(dt) => {
            chrono::TimeZone::offset_from_utc_datetime(&chrono::Local, &dt.naive_utc())
                .local_minus_utc()
        },
        None => 0,
    }
}

/// Relies on `chrono::NaiveDate` day arithmetic and formatting: the
/// calendar date of the day number, rendered "YYYY-MM-DD", a function of
/// the day number alone; a day number outside the supported calendar range
/// renders as the bare number.
#[verifier::external_body]
fn day_to_date_string(day: i64) -> (r: String)
    ensures
        r@ == civil_date_str(day as int),
{
    let base = match chrono::NaiveDate::from_ymd_opt(1970, 1, 1) {
        Some(b) => b,
        None => return day.to_string(),
    };
    match chrono::TimeDelta::try_days(day) {
        Some(delta) => match base.checked_add_signed(delta) {
            Some(date) => date.format("%Y-%m-%d").to_string(),
            None => day.to_string(),
        },
        None => day.to_string(),
    }
}

/// The day number a timestamp falls on, once shifted by the UTC offset.
pub open spec fn day_of(ts: int, off: int) -> int {
    (ts + off) / 86400
}

/// Computes `day_of`.
fn compute_day(ts: i64, off: i32) -> (r: i64)
    requires
        -86400 < off < 86400,
    ensures
        r as int == day_of(ts as int, off as int),
{
    // Shift into non-negative territory so that division rounds down.
    let shift: i128 = 144115188075855872i128;
    let b: i128 = (ts as i128) + (off as i128) + shift * 86400;
    let q: u128 = (b as u128) / 86400;
    let day: i128 = (q as i128) - shift;
    proof {
        lemma_hoist_over_denominator(ts as int + off as int, 144115188075855872int, 86400nat);
        assert(b as int == (ts as int + off as int) + 144115188075855872int * 86400);
    }
    day as i64
}

/// Whether an event falls inside the reporting window.
pub open spec fn in_window(e: Event, cutoff: int) -> bool {
    e.timestamp >= cutoff
}

/// The events of one day and action inside the window.
pub open spec fn day_act_pred(cutoff: int, off: int, day: int, act: EventAction) -> spec_fn(Event) -> bool {
    |e: Event| in_window(e, cutoff) && day_of(e.timestamp as int, off) == day && e.action == act
}

/// The events of one day inside the window, of any action.
pub open spec fn day_any_pred(cutoff: int, off: int, day: int) -> spec_fn(Event) -> bool {
    |e: Event| in_window(e, cutoff) && day_of(e.timestamp as int, off) == day
}

/// How many events of the day and action the window holds.
pub open spec fn day_count(es: Seq<Event>, cutoff: int, off: int, day: int, act: EventAction) -> int {
    es.filter(day_act_pred(cutoff, off, day, act)).len() as int
}

/// How many events of the day the window holds, of any action.
pub open spec fn day_total(es: Seq<Event>, cutoff: int, off: int, day: int) -> int {
    es.filter(day_any_pred(cutoff, off, day)).len() as int
}

/// Whether some listed day equals `day`.
pub open spec fn day_listed(ds: Seq<int>, day: int) -> bool {
    exists|k: int| 0 <= k < ds.len() && ds[k] == day
}

/// Whether the report `r` faithfully summarises the events `es` against
/// the window cutoff, the UTC offset and the listed days `ds`: one row per
/// listed day, most recent first, each carrying that day's per-action
/// counts; a day is listed exactly when the window holds one of its events.
pub open spec fn activity_report_ok(
    r: Seq<ActivitySummary>,
    es: Seq<Event>,
    cutoff: int,
    off: int,
    ds: Seq<int>,
) -> bool {
    &&& r.len() == ds.len()
    &&& forall|a: int, b: int| 0 <= a < b < ds.len() ==> #[trigger] ds[a] > #[trigger] ds[b]
    &&& forall|k: int|
        0 <= k < ds.len() ==> {
            &&& (#[trigger] r[k]).period@ == civil_date_str(ds[k])
            &&& r[k].adds as int == day_count(es, cutoff, off, ds[k], EventAction::Add)
            &&& r[k].taps as int == day_count(es, cutoff, off, ds[k], EventAction::Tap)
            &&& r[k].removes as int == day_count(es, cutoff, off, ds[k], EventAction::Remove)
            &&& r[k].reviews as int == day_count(es, cutoff, off, ds[k], EventAction::Review)
            &&& day_total(es, cutoff, off, ds[k]) > 0
        }
    &&& forall|j: int|
        0 <= j < es.len() && in_window(#[trigger] es[j], cutoff) ==> day_listed(
            ds,
            day_of(es[j].timestamp as int, off),
        )
}

/// A day's counters while the rollup is being built.
pub struct DayRow {
    pub day: i64,
    pub adds: u64,
    pub taps: u64,
    pub removes: u64,
    pub reviews: u64,
}

impl SortOrd for DayRow {
    open spec fn le_spec(self, other: Self) -> bool {
        self.day >= other.day
    }

    proof fn lemma_total(a: Self, b: Self) {
    }

    proof fn lemma_trans(a: Self, b: Self, c: Self) {
    }

    fn le(&self, other: &Self) -> (r: bool) {
        self.day >= other.day
    }
}

fn find_day_row(rows: &Vec<DayRow>, day: i64) -> (r: usize)
    ensures
        r <= rows@.len(),
        forall|k: int| 0 <= k < r ==> (#[trigger] rows@[k]).day != day,
        r < rows@.len() ==> rows@[r as int].day == day,
{
    let n = rows.len();
    let mut k: usize = 0;
    while k < n
        invariant
            k <= n,
            n == rows@.len(),
            forall|j: int| 0 <= j < k ==> (#[trigger] rows@[j]).day != day,
        decreases n - k,
    {
        if rows[k].day == day {
            return k;
        }
        k += 1;
    }
    n
}

/// Whether a row's counters follow the events seen so far.
spec fn row_ok(row: DayRow, es: Seq<Event>, cutoff: int, off: int) -> bool {
    &&& row.adds as int == day_count(es, cutoff, off, row.day as int, EventAction::Add)
    &&& row.taps as int == day_count(es, cutoff, off, row.day as int, EventAction::Tap)
    &&& row.removes as int == day_count(es, cutoff, off, row.day as int, EventAction::Remove)
    &&& row.reviews as int == day_count(es, cutoff, off, row.day as int, EventAction::Review)
    &&& day_total(es, cutoff, off, row.day as int) > 0
}

spec fn rows_day_listed(rows: Seq<DayRow>, day: int) -> bool {
    exists|k: int| 0 <= k < rows.len() && (#[trigger] rows[k]).day == day
}

impl Store {
    /// The ledger's activity over the last `days` days, grouped by calendar
    /// day under the given UTC offset, most recent day first: for each day
    /// with events inside the window, the counts of ADD, TAP, REMOVE and
    /// REVIEW events. The offset is a caller-supplied input, so the whole
    /// report is pinned by the contract.
    #[verifier::loop_isolation(false)]
    #[verifier::rlimit(100)]
    pub fn activity_by_day_with_offset(&self, days: u32, now: i64, utc_offset_secs: i32) -> (r: Vec<ActivitySummary>)
        requires
            -86400 < utc_offset_secs < 86400,
        ensures
            exists|ds: Seq<int>|
                #[trigger] activity_report_ok(
                    r@,
                    self.events@,
                    now as int - days as int * 86400,
                    utc_offset_secs as int,
                    ds,
                ),
    {
        let ghost es = self.events@;
        let ghost cutoff = now as int - days as int * 86400;
        let off = utc_offset_secs;
        let cutoff_wide: i128 = (now as i128) - (days as i128) * 86400;

        let mut rows: Vec<DayRow> = Vec::new();
        let n = self.events.len();
        let mut i: usize = 0;
        proof {
            reveal(Seq::filter);
        }
        while i < n
            invariant
                i <= n,
                n == es.len(),
                forall|k: int|
                    0 <= k < rows@.len() ==> row_ok(#[trigger] rows@[k], es.take(i as int), cutoff, off as int),
                forall|k: int| 0 <= k < rows@.len() ==> (#[trigger] rows@[k]).adds <= i,
                forall|k: int| 0 <= k < rows@.len() ==> (#[trigger] rows@[k]).taps <= i,
                forall|k: int| 0 <= k < rows@.len() ==> (#[trigger] rows@[k]).removes <= i,
                forall|k: int| 0 <= k < rows@.len() ==> (#[trigger] rows@[k]).reviews <= i,
                forall|k1: int, k2: int|
                    0 <= k1 < k2 < rows@.len() ==> (#[trigger] rows@[k1]).day != (
                    #[trigger] rows@[k2]).day,
                forall|j: int|
                    0 <= j < i && in_window(#[trigger] es[j], cutoff) ==> rows_day_listed(
                        rows@,
                        day_of(es[j].timestamp as int, off as int),
                    ),
            decreases n - i,
        {
            let e = &self.events[i];
            let ghost ei = es[i as int];
            let inside = (e.timestamp as i128) >= cutoff_wide;
            proof {
                assert(inside == in_window(ei, cutoff));
                assert(es.take(i + 1).drop_last() =~= es.take(i as int));
                assert(es.take(i + 1).last() == ei);
            }
            let ghost old_rows = rows@;
            if inside {
                let day = compute_day(e.timestamp, off);
                let ghost gday = day as int;
                let k = find_day_row(&rows, day);
                if k < rows.len() {
                    let row = &rows[k];
                    let updated = DayRow {
                        day: row.day,
                        adds: if e.action == EventAction::Add { row.adds + 1 } else { row.adds },
                        taps: if e.action == EventAction::Tap { row.taps + 1 } else { row.taps },
                        removes: if e.action == EventAction::Remove {
                            row.removes + 1
                        } else {
                            row.removes
                        },
                        reviews: if e.action == EventAction::Review {
                            row.reviews + 1
                        } else {
                            row.reviews
                        },
                    };
                    rows[k] = updated;
                } else {
                    rows.push(DayRow {
                        day,
                        adds: if e.action == EventAction::Add { 1 } else { 0 },
                        taps: if e.action == EventAction::Tap { 1 } else { 0 },
                        removes: if e.action == EventAction::Remove { 1 } else { 0 },
                        reviews: if e.action == EventAction::Review { 1 } else { 0 },
                    });
                }
                proof {
                    assert forall|kk: int| 0 <= kk < rows@.len() implies row_ok(
                        #[trigger] rows@[kk],
                        es.take(i + 1),
                        cutoff,
                        off as int,
                    ) by {
                        let d = rows@[kk].day as int;
                        lemma_filter_take_step(es, i as int, day_act_pred(cutoff, off as int, d, EventAction::Add));
                        lemma_filter_take_step(es, i as int, day_act_pred(cutoff, off as int, d, EventAction::Tap));
                        lemma_filter_take_step(es, i as int, day_act_pred(cutoff, off as int, d, EventAction::Remove));
                        lemma_filter_take_step(es, i as int, day_act_pred(cutoff, off as int, d, EventAction::Review));
                        lemma_filter_take_step(es, i as int, day_any_pred(cutoff, off as int, d));
                        if k < old_rows.len() {
                            if kk != k {
                                assert(rows@[kk] == old_rows[kk]);
                                assert(old_rows[kk].day != day);
                            }
                        } else {
                            if kk == old_rows.len() {
                                // A fresh day: nothing counted before it.
                                assert(day_total(es.take(i as int), cutoff, off as int, gday) == 0) by {
                                    let fs = es.take(i as int).filter(day_any_pred(cutoff, off as int, gday));
                                    if fs.len() > 0 {
                                        Seq::lemma_filter_pred(
                                            es.take(i as int),
                                            day_any_pred(cutoff, off as int, gday),
                                            0,
                                        );
                                        assert(fs.contains(fs[0]));
                                        Seq::lemma_filter_contains_rev(
                                            es.take(i as int),
                                            day_any_pred(cutoff, off as int, gday),
                                            fs[0],
                                        );
                                        let j = choose|j: int|
                                            0 <= j < es.take(i as int).len() && es.take(i as int)[j]
                                                == fs[0];
                                        assert(in_window(es[j], cutoff));
                                        assert(rows_day_listed(old_rows, gday));
                                        let kx = choose|kx: int|
                                            0 <= kx < old_rows.len() && (#[trigger] old_rows[kx]).day
                                                == gday;
                                        assert(old_rows[kx].day != day);
                                        assert(false);
                                    }
                                }
                                assert(day_count(es.take(i as int), cutoff, off as int, gday, EventAction::Add) == 0) by {
                                    Seq::lemma_filter_len(
                                        es.take(i as int),
                                        day_act_pred(cutoff, off as int, gday, EventAction::Add),
                                    );
                                    lemma_filter_sub_any(es.take(i as int), cutoff, off as int, gday, EventAction::Add);
                                }
                                assert(day_count(es.take(i as int), cutoff, off as int, gday, EventAction::Tap) == 0) by {
                                    lemma_filter_sub_any(es.take(i as int), cutoff, off as int, gday, EventAction::Tap);
                                }
                                assert(day_count(es.take(i as int), cutoff, off as int, gday, EventAction::Remove) == 0) by {
                                    lemma_filter_sub_any(es.take(i as int), cutoff, off as int, gday, EventAction::Remove);
                                }
                                assert(day_count(es.take(i as int), cutoff, off as int, gday, EventAction::Review) == 0) by {
                                    lemma_filter_sub_any(es.take(i as int), cutoff, off as int, gday, EventAction::Review);
                                }
                            } else {
                                assert(rows@[kk] == old_rows[kk]);
                                assert(old_rows[kk].day != day);
                            }
                        }
                    }
                    assert forall|j: int|
                        0 <= j < i + 1 && in_window(#[trigger] es[j], cutoff) implies rows_day_listed(
                        rows@,
                        day_of(es[j].timestamp as int, off as int),
                    ) by {
                        if j == i {
                            if k < old_rows.len() {
                                assert(rows@[k as int].day == day);
                            } else {
                                assert(rows@[old_rows.len() as int].day == day);
                            }
                        } else {
                            assert(rows_day_listed(old_rows, day_of(es[j].timestamp as int, off as int)));
                            let k0 = choose|k0: int|
                                0 <= k0 < old_rows.len() && (#[trigger] old_rows[k0]).day == day_of(
                                    es[j].timestamp as int,
                                    off as int,
                                );
                            assert(rows@[k0].day == old_rows[k0].day);
                        }
                    }
                }
            } else {
                proof {
                    assert forall|kk: int| 0 <= kk < rows@.len() implies row_ok(
                        #[trigger] rows@[kk],
                        es.take(i + 1),
                        cutoff,
                        off as int,
                    ) by {
                        let d = rows@[kk].day as int;
                        lemma_filter_take_step(es, i as int, day_act_pred(cutoff, off as int, d, EventAction::Add));
                        lemma_filter_take_step(es, i as int, day_act_pred(cutoff, off as int, d, EventAction::Tap));
                        lemma_filter_take_step(es, i as int, day_act_pred(cutoff, off as int, d, EventAction::Remove));
                        lemma_filter_take_step(es, i as int, day_act_pred(cutoff, off as int, d, EventAction::Review));
                        lemma_filter_take_step(es, i as int, day_any_pred(cutoff, off as int, d));
                    }
                }
            }
            i += 1;
        }
        proof {
            assert(es.take(n as int) =~= es);
        }

        let ghost pre_sort = rows@;
        insertion_sort(&mut rows);
        proof {
            broadcast use vstd::seq_lib::group_to_multiset_ensures;

            assert forall|k: int| 0 <= k < rows@.len() implies row_ok(
                #[trigger] rows@[k],
                es,
                cutoff,
                off as int,
            ) by {
                assert(rows@.contains(rows@[k]));
                assert(rows@.to_multiset().count(rows@[k]) > 0);
                assert(pre_sort.to_multiset().count(rows@[k]) > 0);
                assert(pre_sort.contains(rows@[k]));
                let j = choose|j: int| 0 <= j < pre_sort.len() && pre_sort[j] == rows@[k];
                assert(row_ok(pre_sort[j], es, cutoff, off as int));
            }
            assert(pre_sort.no_duplicates()) by {
                assert forall|a: int, b: int|
                    0 <= a < pre_sort.len() && 0 <= b < pre_sort.len() && a != b implies pre_sort[a]
                    != pre_sort[b] by {
                    if a < b {
                        assert(pre_sort[a].day != pre_sort[b].day);
                    } else {
                        assert(pre_sort[b].day != pre_sort[a].day);
                    }
                }
            }
            pre_sort.lemma_multiset_has_no_duplicates();
            rows@.lemma_multiset_has_no_duplicates_conv();
            assert forall|k1: int, k2: int|
                0 <= k1 < k2 < rows@.len() implies (#[trigger] rows@[k1]).day > (
            #[trigger] rows@[k2]).day by {
                assert(rows@[k1].le_spec(rows@[k2]));
                assert(rows@[k1] != rows@[k2]);
                if rows@[k1].day == rows@[k2].day {
                    assert(rows@.contains(rows@[k1]));
                    assert(rows@.to_multiset().count(rows@[k1]) > 0);
                    assert(pre_sort.to_multiset().count(rows@[k1]) > 0);
                    assert(pre_sort.contains(rows@[k1]));
                    assert(rows@.contains(rows@[k2]));
                    assert(rows@.to_multiset().count(rows@[k2]) > 0);
                    assert(pre_sort.to_multiset().count(rows@[k2]) > 0);
                    assert(pre_sort.contains(rows@[k2]));
                    let j1 = choose|j: int| 0 <= j < pre_sort.len() && pre_sort[j] == rows@[k1];
                    let j2 = choose|j: int| 0 <= j < pre_sort.len() && pre_sort[j] == rows@[k2];
                    assert(j1 != j2);
                    if j1 < j2 {
                        assert(pre_sort[j1].day != pre_sort[j2].day);
                    } else {
                        assert(pre_sort[j2].day != pre_sort[j1].day);
                    }
                    assert(false);
                }
            }
            assert forall|j: int|
                0 <= j < es.len() && in_window(#[trigger] es[j], cutoff) implies rows_day_listed(
                rows@,
                day_of(es[j].timestamp as int, off as int),
            ) by {
                assert(rows_day_listed(pre_sort, day_of(es[j].timestamp as int, off as int)));
                let k0 = choose|k: int|
                    0 <= k < pre_sort.len() && (#[trigger] pre_sort[k]).day == day_of(
                        es[j].timestamp as int,
                        off as int,
                    );
                assert(pre_sort.contains(pre_sort[k0]));
                assert(pre_sort.to_multiset().count(pre_sort[k0]) > 0);
                assert(rows@.to_multiset().count(pre_sort[k0]) > 0);
                assert(rows@.contains(pre_sort[k0]));
                let k = choose|k: int| 0 <= k < rows@.len() && rows@[k] == pre_sort[k0];
                assert(rows@[k].day == day_of(es[j].timestamp as int, off as int));
            }
        }

        // Render the rows.
        let ghost sorted_rows = rows@;
        let ghost ds = Seq::new(sorted_rows.len(), |k: int| sorted_rows[k].day as int);
        let mut r: Vec<ActivitySummary> = Vec::new();
        let rn = rows.len();
        let mut k: usize = 0;
        while k < rn
            invariant
                k <= rn,
                rows@ == sorted_rows,
                rn == sorted_rows.len(),
                r@.len() == k,
                forall|kk: int|
                    0 <= kk < k ==> (#[trigger] r@[kk]).period@ == civil_date_str(
                        sorted_rows[kk].day as int,
                    ) && r@[kk].adds == sorted_rows[kk].adds && r@[kk].taps == sorted_rows[kk].taps
                        && r@[kk].removes == sorted_rows[kk].removes && r@[kk].reviews
                        == sorted_rows[kk].reviews,
            decreases rn - k,
        {
            let row = &rows[k];
            r.push(ActivitySummary {
                period: day_to_date_string(row.day),
                adds: row.adds,
                taps: row.taps,
                removes: row.removes,
                reviews: row.reviews,
            });
            k += 1;
        }
        proof {
            assert(activity_report_ok(r@, es, cutoff, off as int, ds)) by {
                assert forall|a: int, b: int| 0 <= a < b < ds.len() implies #[trigger] ds[a]
                    > #[trigger] ds[b] by {
                    assert(sorted_rows[a].day > sorted_rows[b].day);
                }
                assert forall|j: int|
                    0 <= j < es.len() && in_window(#[trigger] es[j], cutoff) implies day_listed(
                    ds,
                    day_of(es[j].timestamp as int, off as int),
                ) by {
                    let k0 = choose|k: int|
                        0 <= k < sorted_rows.len() && (#[trigger] sorted_rows[k]).day == day_of(
                            es[j].timestamp as int,
                            off as int,
                        );
                    assert(ds[k0] == day_of(es[j].timestamp as int, off as int));
                }
            }
        }
        r
    }

    /// The ledger's activity over the last `days` days, grouped by the
    /// machine's local calendar day at `now`, most recent day first. The
    /// machine's UTC offset is read from the environment, so the contract
    /// binds it only by its range; for a report pinned to a known offset,
    /// call [`Store::activity_by_day_with_offset`]. The whole window is
    /// bucketed with the one offset taken at `now`, so events within the
    /// shifted hour around a daylight-saving transition may land on the
    /// neighbouring day.
    pub fn get_activity_by_day(&self, days: u32, now: i64) -> (r: Vec<ActivitySummary>)
        ensures
            exists|off: int, ds: Seq<int>|
                -86400 < off < 86400 && #[trigger] activity_report_ok(
                    r@,
                    self.events@,
                    now as int - days as int * 86400,
                    off,
                    ds,
                ),
    {
        let off = local_offset_secs(now);
        self.activity_by_day_with_offset(days, now, off)
    }
}

/// The per-action count never exceeds the any-action count for the day.
proof fn lemma_filter_sub_any(es: Seq<Event>, cutoff: int, off: int, day: int, act: EventAction)
    requires
        day_total(es, cutoff, off, day) == 0,
    ensures
        day_count(es, cutoff, off, day, act) == 0,
    decreases es.len(),
{
    reveal(Seq::filter);
    if es.len() > 0 {
        assert(es.drop_last().filter(day_any_pred(cutoff, off, day)).len() <= es.filter(
            day_any_pred(cutoff, off, day),
        ).len());
        lemma_filter_sub_any(es.drop_last(), cutoff, off, day, act);
    }
}

} // verus!
