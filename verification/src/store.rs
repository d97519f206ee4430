//! The memory store and its append-only event ledger.
//!
//! A [`Store`] holds the memory records and the ledger in memory; every
//! operation is a deterministic transition described by a spec function over
//! the store's view. Persistence is the caller's concern: the store is loaded
//! from and written back to durable storage outside this crate.

use vstd::prelude::*;
use crate::payload;
use crate::text;

verus! {

/// The kind of a ledger entry.
#[derive(Clone, Copy, Debug, PartialEq, Eq, Structural)]
pub enum EventAction {
    Add,
    Edit,
    Tap,
    Review,
    Remove,
    Expire,
    Promote,
}

/// A stored fact with engagement counters and a generation tier.
#[derive(Debug)]
pub struct Memory {
    /// Opaque unique identifier, assigned at creation, immutable.
    pub id: String,
    /// The fact itself; editable.
    pub content: String,
    /// Free-form scope label, set at creation, immutable.
    pub scope: String,
    /// Tier 0 (ephemeral), 1 (surviving) or 2 (permanent); non-decreasing.
    pub generation: u8,
    /// How often the memory was used; non-decreasing.
    pub tap_count: u32,
    /// How often the memory was surfaced into context; non-decreasing.
    pub review_count: u32,
    /// When the memory was last used, if ever.
    pub last_tapped_at: Option<i64>,
    /// When the memory was last surfaced, if ever.
    pub last_reviewed_at: Option<i64>,
    /// When the memory was created; immutable.
    pub created_at: i64,
}

/// The mathematical value of a [`Memory`].
pub ghost struct MemoryView {
    pub id: Seq<char>,
    pub content: Seq<char>,
    pub scope: Seq<char>,
    pub generation: int,
    pub tap_count: int,
    pub review_count: int,
    pub last_tapped_at: Option<int>,
    pub last_reviewed_at: Option<int>,
    pub created_at: int,
}

impl View for Memory {
    type V = MemoryView;

    open spec fn view(&self) -> MemoryView {
        MemoryView {
            id: self.id@,
            content: self.content@,
            scope: self.scope@,
            generation: self.generation as int,
            tap_count: self.tap_count as int,
            review_count: self.review_count as int,
            last_tapped_at: match self.last_tapped_at {
                Some(t) => Some(t as int),
                None => None,
            },
            last_reviewed_at: match self.last_reviewed_at {
                Some(t) => Some(t as int),
                None => None,
            },
            created_at: self.created_at as int,
        }
    }
}

impl Memory {
    /// A field-for-field copy.
    pub fn duplicate(&self) -> (r: Memory)
        ensures
            r == *self,
    {
        Memory {
            id: self.id.clone(),
            content: self.content.clone(),
            scope: self.scope.clone(),
            generation: self.generation,
            tap_count: self.tap_count,
            review_count: self.review_count,
            last_tapped_at: self.last_tapped_at,
            last_reviewed_at: self.last_reviewed_at,
            created_at: self.created_at,
        }
    }
}

/// An immutable ledger entry.
#[derive(Debug)]
pub struct Event {
    /// Sequence number; assigned in increasing order, defines the total order.
    pub id: i64,
    /// When the event was recorded.
    pub timestamp: i64,
    /// What happened.
    pub action: EventAction,
    /// The memory the event concerns, if any; the memory may since be gone.
    pub memory_id: Option<String>,
    /// Optional structured payload.
    pub data: Option<String>,
}

/// The mathematical value of an [`Event`].
pub ghost struct EventView {
    pub id: int,
    pub timestamp: int,
    pub action: EventAction,
    pub memory_id: Option<Seq<char>>,
    pub data: Option<Seq<char>>,
}

impl View for Event {
    type V = EventView;

    open spec fn view(&self) -> EventView {
        EventView {
            id: self.id as int,
            timestamp: self.timestamp as int,
            action: self.action,
            memory_id: match self.memory_id {
                Some(ref s) => Some(s@),
                None => None,
            },
            data: match self.data {
                Some(ref s) => Some(s@),
                None => None,
            },
        }
    }
}

impl Event {
    /// A field-for-field copy.
    pub fn duplicate(&self) -> (r: Event)
        ensures
            r == *self,
    {
        Event {
            id: self.id,
            timestamp: self.timestamp,
            action: self.action,
            memory_id: match &self.memory_id {
                Some(s) => Some(s.clone()),
                None => None,
            },
            data: match &self.data {
                Some(s) => Some(s.clone()),
                None => None,
            },
        }
    }
}

/// The views of a sequence of memories.
pub open spec fn mem_views(ms: Seq<Memory>) -> Seq<MemoryView> {
    ms.map_values(|m: Memory| m@)
}

/// The views of a sequence of events.
pub open spec fn event_views(es: Seq<Event>) -> Seq<EventView> {
    es.map_values(|e: Event| e@)
}

pub broadcast proof fn lemma_mem_views_index(ms: Seq<Memory>, i: int)
    requires
        0 <= i < ms.len(),
    ensures
        #[trigger] mem_views(ms)[i] == ms[i]@,
{
}

pub broadcast proof fn lemma_str_views_index(ss: Seq<String>, i: int)
    requires
        0 <= i < ss.len(),
    ensures
        #[trigger] str_views(ss)[i] == ss[i]@,
{
}

pub broadcast proof fn lemma_ids_of_index(ms: Seq<Memory>, i: int)
    requires
        0 <= i < ms.len(),
    ensures
        #[trigger] ids_of(ms)[i] == ms[i]@.id,
{
}

pub proof fn lemma_str_views_push(ss: Seq<String>, x: String)
    ensures
        str_views(ss.push(x)) == str_views(ss).push(x@),
{
    broadcast use lemma_str_views_index;

    assert(str_views(ss.push(x)) =~= str_views(ss).push(x@));
}

pub proof fn lemma_ids_of_push(ms: Seq<Memory>, m: Memory)
    ensures
        ids_of(ms.push(m)) == ids_of(ms).push(m@.id),
{
    broadcast use lemma_ids_of_index;

    assert(ids_of(ms.push(m)) =~= ids_of(ms).push(m@.id));
}

pub proof fn lemma_mem_views_push(ms: Seq<Memory>, m: Memory)
    ensures
        mem_views(ms.push(m)) == mem_views(ms).push(m@),
{
    broadcast use lemma_mem_views_index;

    assert(mem_views(ms.push(m)) =~= mem_views(ms).push(m@));
}

/// Mapping commutes with appending one element.
pub proof fn lemma_map_values_push<A, B>(s: Seq<A>, f: spec_fn(A) -> B, x: A)
    ensures
        s.push(x).map_values(f) == s.map_values(f).push(f(x)),
{
    assert(s.push(x).map_values(f) =~= s.map_values(f).push(f(x)));
}

/// One step of filtering a growing prefix: the filtered prefix either gains
/// the new element or stays as it was.
pub proof fn lemma_filter_take_step<A>(ms: Seq<A>, i: int, pred: spec_fn(A) -> bool)
    requires
        0 <= i < ms.len(),
    ensures
        ms.take(i + 1).filter(pred) == if pred(ms[i]) {
            ms.take(i).filter(pred).push(ms[i])
        } else {
            ms.take(i).filter(pred)
        },
{
    reveal(Seq::filter);
    assert(ms.take(i + 1).drop_last() =~= ms.take(i));
    assert(ms.take(i + 1).last() == ms[i]);
}

/// The view of an optional borrowed string.
pub open spec fn opt_str_view(o: Option<&str>) -> Option<Seq<char>> {
    match o {
        Some(s) => Some(s@),
        None => None,
    }
}

/// The mathematical state of a [`Store`].
pub ghost struct StoreView {
    pub memories: Seq<MemoryView>,
    pub events: Seq<EventView>,
}

/// Well-formedness: memory ids are unique, generations are tiers 0 through 2,
/// counters are in machine range, and ledger entries are numbered 1, 2, ...
/// in order.
pub open spec fn wf(sv: StoreView) -> bool {
    &&& forall|i: int, j: int|
        0 <= i < j < sv.memories.len() ==> sv.memories[i].id != sv.memories[j].id
    &&& forall|i: int| 0 <= i < sv.memories.len() ==> 0 <= #[trigger] sv.memories[i].generation <= 2
    &&& forall|i: int| 0 <= i < sv.events.len() ==> #[trigger] sv.events[i].id == i + 1
}

/// The memory store: records plus the append-only ledger.
///
/// The operations below keep [`wf`] of the view; a caller that assembles a
/// store directly (say, from durable storage) is expected to establish it.
pub struct Store {
    /// The memory records, in insertion order.
    pub memories: Vec<Memory>,
    /// The event ledger, oldest first.
    pub events: Vec<Event>,
}

impl View for Store {
    type V = StoreView;

    open spec fn view(&self) -> StoreView {
        StoreView { memories: mem_views(self.memories@), events: event_views(self.events@) }
    }
}

/// The index of the first memory with the given id, or `ms.len()` if absent.
pub open spec fn mem_index(ms: Seq<MemoryView>, id: Seq<char>) -> int
    decreases ms.len(),
{
    if ms.len() == 0 {
        0
    } else if ms[0].id == id {
        0
    } else {
        1 + mem_index(ms.drop_first(), id)
    }
}

pub proof fn lemma_mem_index(ms: Seq<MemoryView>, id: Seq<char>)
    ensures
        0 <= mem_index(ms, id) <= ms.len(),
        forall|j: int| 0 <= j < mem_index(ms, id) ==> ms[j].id != id,
        mem_index(ms, id) < ms.len() ==> ms[mem_index(ms, id)].id == id,
    decreases ms.len(),
{
    if ms.len() > 0 && ms[0].id != id {
        lemma_mem_index(ms.drop_first(), id);
        assert forall|j: int| 0 <= j < mem_index(ms, id) implies ms[j].id != id by {
            if j > 0 {
                assert(ms.drop_first()[j - 1].id != id);
            }
        }
    }
}

/// Any index with the properties of `mem_index` is `mem_index`.
pub proof fn lemma_mem_index_unique(ms: Seq<MemoryView>, id: Seq<char>, i: int)
    requires
        0 <= i <= ms.len(),
        forall|j: int| 0 <= j < i ==> ms[j].id != id,
        i < ms.len() ==> ms[i].id == id,
    ensures
        i == mem_index(ms, id),
{
    lemma_mem_index(ms, id);
    let f = mem_index(ms, id);
    if i < f {
        assert(ms[i].id != id);
    } else if f < i {
        assert(ms[f].id != id);
    }
}

/// The memory with the given id, if present.
pub open spec fn spec_get(sv: StoreView, id: Seq<char>) -> Option<MemoryView> {
    let i = mem_index(sv.memories, id);
    if i < sv.memories.len() {
        Some(sv.memories[i])
    } else {
        None
    }
}

/// The ledger entry appended for the given action.
pub open spec fn new_event(
    sv: StoreView,
    action: EventAction,
    memory_id: Option<Seq<char>>,
    data: Option<Seq<char>>,
    now: int,
) -> EventView {
    EventView { id: sv.events.len() as int + 1, timestamp: now, action, memory_id, data }
}

/// The state after appending one ledger entry.
pub open spec fn spec_log(
    sv: StoreView,
    action: EventAction,
    memory_id: Option<Seq<char>>,
    data: Option<Seq<char>>,
    now: int,
) -> StoreView {
    StoreView { memories: sv.memories, events: sv.events.push(new_event(sv, action, memory_id, data, now)) }
}

/// The freshly created memory record.
pub open spec fn new_memory(id: Seq<char>, content: Seq<char>, scope: Seq<char>, now: int) -> MemoryView {
    MemoryView {
        id,
        content,
        scope,
        generation: 0,
        tap_count: 0,
        review_count: 0,
        last_tapped_at: None,
        last_reviewed_at: None,
        created_at: now,
    }
}

/// The state after adding a memory: the record is appended with generation 0
/// and zero counters, and an ADD event carrying the content and scope is
/// logged.
pub open spec fn spec_add(sv: StoreView, id: Seq<char>, content: Seq<char>, scope: Seq<char>, now: int) -> StoreView {
    let with_mem = StoreView { memories: sv.memories.push(new_memory(id, content, scope, now)), events: sv.events };
    spec_log(with_mem, EventAction::Add, Some(id), Some(payload::add_payload(content, scope)), now)
}

/// The state after editing the memory at index `i`: its content is replaced
/// and an EDIT event carrying the old and new content is logged.
pub open spec fn spec_edit(sv: StoreView, i: int, new_content: Seq<char>, now: int) -> StoreView {
    let m = sv.memories[i];
    let with_mem = StoreView {
        memories: sv.memories.update(i, MemoryView { content: new_content, ..m }),
        events: sv.events,
    };
    spec_log(
        with_mem,
        EventAction::Edit,
        Some(m.id),
        Some(payload::edit_payload(m.content, new_content)),
        now,
    )
}

/// The state after removing the memory at index `i` and logging a REMOVE
/// event.
pub open spec fn spec_remove(sv: StoreView, i: int, now: int) -> StoreView {
    let m = sv.memories[i];
    let with_mem = StoreView { memories: sv.memories.remove(i), events: sv.events };
    spec_log(with_mem, EventAction::Remove, Some(m.id), None, now)
}

/// A memory after one tap at time `now`: the tap counter goes up by one
/// (saturating at the machine limit) and the tap timestamp is set.
pub open spec fn tapped_memory(m: MemoryView, now: int) -> MemoryView {
    MemoryView {
        tap_count: if m.tap_count == u32::MAX { m.tap_count } else { m.tap_count + 1 },
        last_tapped_at: Some(now),
        ..m
    }
}

/// The state after tapping the memory at index `i` and logging a TAP event.
pub open spec fn spec_tap(sv: StoreView, i: int, now: int) -> StoreView {
    let m = sv.memories[i];
    let with_mem = StoreView { memories: sv.memories.update(i, tapped_memory(m, now)), events: sv.events };
    spec_log(with_mem, EventAction::Tap, Some(m.id), None, now)
}

/// Ranking order: generation descending, then tap count descending, then
/// creation time descending.
pub open spec fn rank_le(a: MemoryView, b: MemoryView) -> bool {
    ||| a.generation > b.generation
    ||| (a.generation == b.generation && a.tap_count > b.tap_count)
    ||| (a.generation == b.generation && a.tap_count == b.tap_count && a.created_at >= b.created_at)
}

/// Listing order: creation time descending.
pub open spec fn created_le(a: MemoryView, b: MemoryView) -> bool {
    a.created_at >= b.created_at
}

/// Which order a memory listing uses.
#[derive(Clone, Copy, Debug, PartialEq, Eq, Structural)]
pub enum MemOrder {
    /// Generation, tap count and creation time, all descending.
    RankDesc,
    /// Creation time descending.
    CreatedDesc,
}

/// The chosen "comes before or equal" relation on memories.
pub open spec fn mem_le(ord: MemOrder, a: MemoryView, b: MemoryView) -> bool {
    match ord {
        MemOrder::RankDesc => rank_le(a, b),
        MemOrder::CreatedDesc => created_le(a, b),
    }
}

/// Decides `mem_le`.
fn le_mem(ord: MemOrder, a: &Memory, b: &Memory) -> (r: bool)
    ensures
        r == mem_le(ord, a@, b@),
{
    match ord {
        MemOrder::RankDesc => {
            if a.generation != b.generation {
                a.generation > b.generation
            } else if a.tap_count != b.tap_count {
                a.tap_count > b.tap_count
            } else {
                a.created_at >= b.created_at
            }
        },
        MemOrder::CreatedDesc => a.created_at >= b.created_at,
    }
}

/// Sorts memories by the chosen order; the result is sorted and holds the
/// same records, with multiplicity.
pub fn sort_memories(v: &mut Vec<Memory>, ord: MemOrder)
    ensures
        final(v)@.len() == old(v)@.len(),
        forall|a: int, b: int|
            0 <= a < b < final(v)@.len() ==> mem_le(ord, #[trigger] final(v)@[a]@, #[trigger] final(v)@[b]@),
        final(v)@.to_multiset() == old(v)@.to_multiset(),
{
    let mut i: usize = 1;
    while i < v.len()
        invariant
            1 <= i,
            v@.len() == old(v)@.len(),
            v@.to_multiset() == old(v)@.to_multiset(),
            forall|a: int, b: int|
                0 <= a < b < i && b < v@.len() ==> mem_le(ord, #[trigger] v@[a]@, #[trigger] v@[b]@),
        decreases v@.len() - i,
    {
        let ghost pre = v@;
        let mut j: usize = 0;
        while j < i && le_mem(ord, &v[j], &v[i])
            invariant
                i < v@.len(),
                v@ == pre,
                j <= i,
                forall|k: int| 0 <= k < j ==> mem_le(ord, #[trigger] v@[k]@, v@[i as int]@),
            decreases i - j,
        {
            j += 1;
        }
        let ghost gi = i as int;
        let ghost gj = j as int;
        let ghost x = pre[gi];
        proof {
            assert forall|k: int| gj <= k < gi implies mem_le(ord, x@, #[trigger] pre[k]@) by {
                assert(gj < gi);
                assert(!mem_le(ord, pre[gj]@, x@));
            }
        }
        let x_exec = v.remove(i);
        v.insert(j, x_exec);
        proof {
            assert(v@ =~= pre.remove(gi).insert(gj, x));
            crate::sort::lemma_seq_remove_insert_multiset(pre, gi, gj);
            assert forall|a: int, b: int|
                0 <= a < b < gi + 1 && b < v@.len() implies mem_le(ord, #[trigger] v@[a]@, #[trigger] v@[b]@) by {
                let va = if a < gj { pre[a] } else if a == gj { x } else { pre[a - 1] };
                let vb = if b < gj { pre[b] } else if b == gj { x } else { pre[b - 1] };
                assert(v@[a] == va);
                assert(v@[b] == vb);
            }
        }
        i += 1;
    }
}

/// The filter used by a memory listing: an optional exact scope and an
/// optional exact generation, combined with "and".
pub open spec fn list_pred(m: MemoryView, scope: Option<Seq<char>>, gen: Option<int>) -> bool {
    &&& match scope {
        Some(s) => m.scope == s,
        None => true,
    }
    &&& match gen {
        Some(g) => m.generation == g,
        None => true,
    }
}

/// `list_pred` as a predicate on memory records.
pub open spec fn list_pred_m(scope: Option<Seq<char>>, gen: Option<int>) -> spec_fn(Memory) -> bool {
    |m: Memory| list_pred(m@, scope, gen)
}

/// The view of an optional generation filter.
pub open spec fn opt_gen_view(g: Option<u8>) -> Option<int> {
    match g {
        Some(x) => Some(x as int),
        None => None,
    }
}

/// The views of a sequence of owned strings.
pub open spec fn str_views(ss: Seq<String>) -> Seq<Seq<char>> {
    ss.map_values(|s: String| s@)
}

/// The ids of a sequence of memory records.
pub open spec fn ids_of(ms: Seq<Memory>) -> Seq<Seq<char>> {
    ms.map_values(|m: Memory| m@.id)
}

/// Whether a memory is selected by a scope filter: an empty filter selects
/// everything, otherwise the scope must be listed.
pub open spec fn init_selected(m: MemoryView, scopes: Seq<Seq<char>>) -> bool {
    scopes.len() == 0 || scopes.contains(m.scope)
}

/// `init_selected` as a predicate on memory records.
pub open spec fn init_selected_m(scopes: Seq<Seq<char>>) -> spec_fn(Memory) -> bool {
    |m: Memory| init_selected(m@, scopes)
}

/// A memory after one review at time `now`: the review counter goes up by
/// one (saturating at the machine limit) and the review timestamp is set.
pub open spec fn reviewed_memory(m: MemoryView, now: int) -> MemoryView {
    MemoryView {
        review_count: if m.review_count >= u32::MAX as int { m.review_count } else { m.review_count + 1 },
        last_reviewed_at: Some(now),
        ..m
    }
}

/// All selected memories after one review; the others are unchanged.
pub open spec fn spec_review_all(ms: Seq<MemoryView>, scopes: Seq<Seq<char>>, now: int) -> Seq<MemoryView> {
    Seq::new(ms.len(), |i: int| if init_selected(ms[i], scopes) { reviewed_memory(ms[i], now) } else { ms[i] })
}

/// The ledger entries appended for a batch of per-memory events: one entry
/// per id, in order, numbered from `base + 1`.
pub open spec fn id_events(base: int, action: EventAction, ids: Seq<Seq<char>>, now: int) -> Seq<EventView> {
    Seq::new(
        ids.len(),
        |k: int| EventView { id: base + 1 + k, timestamp: now, action, memory_id: Some(ids[k]), data: None },
    )
}

/// Whether a memory's content contains the pattern as a (case-sensitive)
/// substring.
pub open spec fn match_pred(m: MemoryView, pattern: Seq<char>) -> bool {
    text::contains_sub(m.content, pattern)
}

/// `match_pred` as a predicate on memory records.
pub open spec fn match_pred_m(pattern: Seq<char>) -> spec_fn(Memory) -> bool {
    |m: Memory| match_pred(m@, pattern)
}

/// All matching memories after one tap; the others are unchanged.
pub open spec fn spec_tap_all(ms: Seq<MemoryView>, pattern: Seq<char>, now: int) -> Seq<MemoryView> {
    Seq::new(ms.len(), |i: int| if match_pred(ms[i], pattern) { tapped_memory(ms[i], now) } else { ms[i] })
}

/// Whether a ledger entry matches the optional exact action and the
/// optional exact memory id, combined with "and".
pub open spec fn event_matches(e: EventView, action: Option<EventAction>, memory_id: Option<Seq<char>>) -> bool {
    &&& match action {
        Some(a) => e.action == a,
        None => true,
    }
    &&& match memory_id {
        Some(id) => e.memory_id == Some(id),
        None => true,
    }
}

/// `event_matches` as a predicate on ledger entries.
pub open spec fn event_pred_m(action: Option<EventAction>, memory_id: Option<Seq<char>>) -> spec_fn(Event) -> bool {
    |e: Event| event_matches(e@, action, memory_id)
}

/// The result of a ledger query: the matching entries, newest first, at
/// most `limit` of them.
pub open spec fn query_events(es: Seq<Event>, limit: int, action: Option<EventAction>, memory_id: Option<Seq<char>>) -> Seq<Event> {
    let f = es.filter(event_pred_m(action, memory_id));
    f.reverse().take(if limit <= f.len() { limit } else { f.len() as int })
}

/// Whether `s` is one of the listed scopes.
fn scope_listed(scopes: &[String], s: &str) -> (r: bool)
    ensures
        r == str_views(scopes@).contains(s@),
{
    let n = scopes.len();
    let mut k: usize = 0;
    while k < n
        invariant
            n == scopes@.len(),
            k <= n,
            forall|j: int| 0 <= j < k ==> str_views(scopes@)[j] != s@,
        decreases n - k,
    {
        if text::str_eq(scopes[k].as_str(), s) {
            assert(str_views(scopes@)[k as int] == s@);
            return true;
        }
        k += 1;
    }
    assert(!str_views(scopes@).contains(s@));
    false
}

impl Store {
    /// An empty store: no memories, no ledger entries.
    pub fn new() -> (r: Store)
        ensures
            r@.memories.len() == 0,
            r@.events.len() == 0,
            wf(r@),
    {
        let r = Store { memories: Vec::new(), events: Vec::new() };
        proof {
            assert(r@.memories =~= Seq::<MemoryView>::empty());
            assert(r@.events =~= Seq::<EventView>::empty());
        }
        r
    }

    /// Well-formedness of this store.
    pub open spec fn inv(&self) -> bool {
        wf(self@)
    }

    /// The number of memories held.
    pub fn memory_count(&self) -> (r: usize)
        ensures
            r == self@.memories.len(),
    {
        self.memories.len()
    }

    /// The number of ledger entries held.
    pub fn event_count(&self) -> (r: usize)
        ensures
            r == self@.events.len(),
    {
        self.events.len()
    }

    /// The index of the memory with the given id, or the memory count if
    /// absent.
    fn find_index(&self, id: &str) -> (r: usize)
        ensures
            r as int == mem_index(self@.memories, id@),
    {
        let n = self.memories.len();
        let mut i: usize = 0;
        while i < n
            invariant
                n == self@.memories.len(),
                i <= n,
                forall|j: int| 0 <= j < i ==> self@.memories[j].id != id@,
            decreases n - i,
        {
            if text::str_eq(self.memories[i].id.as_str(), id) {
                proof {
                    lemma_mem_index_unique(self@.memories, id@, i as int);
                }
                return i;
            }
            i += 1;
        }
        proof {
            lemma_mem_index_unique(self@.memories, id@, n as int);
        }
        n
    }

    /// The memories matching the optional scope and generation filters,
    /// ordered by creation time descending.
    pub fn list_memories(&self, scope: Option<&str>, gen: Option<u8>) -> (r: Vec<Memory>)
        ensures
            r@.to_multiset() == self.memories@.filter(
                list_pred_m(opt_str_view(scope), opt_gen_view(gen)),
            ).to_multiset(),
            forall|a: int, b: int| 0 <= a < b < r@.len() ==> #[trigger] r@[a]@.created_at >= #[trigger] r@[b]@.created_at,
            forall|k: int|
                0 <= k < r@.len() ==> list_pred(#[trigger] r@[k]@, opt_str_view(scope), opt_gen_view(gen)),
    {
        let ghost pred = list_pred_m(opt_str_view(scope), opt_gen_view(gen));
        let mut picked: Vec<Memory> = Vec::new();
        let n = self.memories.len();
        let mut i: usize = 0;
        proof {
            reveal(Seq::filter);
            assert(picked@ =~= self.memories@.take(0).filter(pred));
        }
        while i < n
            invariant
                n == self.memories@.len(),
                i <= n,
                pred == list_pred_m(opt_str_view(scope), opt_gen_view(gen)),
                picked@ == self.memories@.take(i as int).filter(pred),
            decreases n - i,
        {
            let m = &self.memories[i];
            let sel = (match scope {
                Some(s) => text::str_eq(m.scope.as_str(), s),
                None => true,
            }) && (match gen {
                Some(g) => m.generation == g,
                None => true,
            });
            if sel {
                picked.push(m.duplicate());
            }
            proof {
                reveal(Seq::filter);
                assert(self.memories@.take(i + 1).drop_last() =~= self.memories@.take(i as int));
                assert(self.memories@.take(i + 1).last() == self.memories@[i as int]);
            }
            i += 1;
        }
        proof {
            assert(self.memories@.take(n as int) =~= self.memories@);
        }
        sort_memories(&mut picked, MemOrder::CreatedDesc);
        let r = picked;
        proof {
            broadcast use vstd::seq_lib::group_to_multiset_ensures;

            let filtered = self.memories@.filter(pred);
            assert forall|k: int| 0 <= k < r@.len() implies list_pred(
                #[trigger] r@[k]@,
                opt_str_view(scope),
                opt_gen_view(gen),
            ) by {
                assert(r@.to_multiset().count(r@[k]) > 0) by {
                    assert(r@.contains(r@[k]));
                }
                assert(filtered.to_multiset().count(r@[k]) > 0);
                assert(filtered.contains(r@[k]));
                let idx = choose|idx: int| 0 <= idx < filtered.len() && filtered[idx] == r@[k];
                assert(pred(filtered[idx])) by {
                    Seq::lemma_filter_pred(self.memories@, pred, idx);
                }
            }
        }
        r
    }

    /// Surfaces memories into a caller's working context: selects the
    /// memories matching the scope filter (all of them when it is empty),
    /// returns them with their pre-review counters in ranking order, marks
    /// every selected memory as reviewed at `now`, and appends one REVIEW
    /// event per returned memory, in the returned order. Being shown counts
    /// as a review whether or not the memory is later tapped.
    #[verifier::loop_isolation(false)]
    pub fn get_memories_for_init(&mut self, scopes: &[String], now: i64) -> (r: Vec<Memory>)
        requires
            wf(old(self)@),
            old(self)@.events.len() + old(self)@.memories.len() < i64::MAX,
        ensures
            r@.to_multiset() == old(self).memories@.filter(init_selected_m(str_views(scopes@))).to_multiset(),
            forall|a: int, b: int| 0 <= a < b < r@.len() ==> rank_le(#[trigger] r@[a]@, #[trigger] r@[b]@),
            forall|k: int| 0 <= k < r@.len() ==> init_selected(#[trigger] r@[k]@, str_views(scopes@)),
            final(self)@.memories == spec_review_all(old(self)@.memories, str_views(scopes@), now as int),
            final(self)@.events == old(self)@.events + id_events(
                old(self)@.events.len() as int,
                EventAction::Review,
                ids_of(r@),
                now as int,
            ),
            wf(final(self)@),
    {
        let ghost pre = self@;
        let ghost pre_mems = self.memories@;
        let ghost scopes_v = str_views(scopes@);
        let ghost pred = init_selected_m(scopes_v);

        // Pass one: collect the selected memories with their current values.
        let mut picked: Vec<Memory> = Vec::new();
        let n = self.memories.len();
        let mut i: usize = 0;
        proof {
            reveal(Seq::filter);
            assert(picked@ =~= pre_mems.take(0).filter(pred));
        }
        while i < n
            invariant
                n == self.memories@.len(),
                self.memories@ == pre_mems,
                self@ == pre,
                i <= n,
                pred == init_selected_m(scopes_v),
                scopes_v == str_views(scopes@),
                picked@ == pre_mems.take(i as int).filter(pred),
            decreases n - i,
        {
            let m = &self.memories[i];
            let sel = scopes.len() == 0 || scope_listed(scopes, m.scope.as_str());
            if sel {
                picked.push(m.duplicate());
            }
            proof {
                reveal(Seq::filter);
                assert(pre_mems.take(i + 1).drop_last() =~= pre_mems.take(i as int));
                assert(pre_mems.take(i + 1).last() == pre_mems[i as int]);
            }
            i += 1;
        }
        proof {
            assert(pre_mems.take(n as int) =~= pre_mems);
            Seq::lemma_filter_len(pre_mems, pred);
        }

        // Pass two: mark every selected memory as reviewed.
        let mut i: usize = 0;
        while i < n
            invariant
                n == self.memories@.len(),
                i <= n,
                scopes_v == str_views(scopes@),
                self@.events == pre.events,
                forall|j: int|
                    0 <= j < i ==> #[trigger] self@.memories[j] == spec_review_all(
                        pre.memories,
                        scopes_v,
                        now as int,
                    )[j],
                forall|j: int| i <= j < n ==> #[trigger] self.memories@[j] == pre_mems[j],
            decreases n - i,
        {
            let ghost cur = self@;
            let ghost cur_mems = self.memories@;
            let m = &self.memories[i];
            let sel = scopes.len() == 0 || scope_listed(scopes, m.scope.as_str());
            proof {
                broadcast use lemma_mem_views_index;

                assert(self.memories@[i as int] == pre_mems[i as int]);
                assert(self@.memories[i as int] == self.memories@[i as int]@);
                assert(pre.memories[i as int] == pre_mems[i as int]@);
                assert(self@.memories[i as int] == pre.memories[i as int]);
                assert(sel == init_selected(pre.memories[i as int], scopes_v));
            }
            if sel {
                let old_m = self.memories.remove(i);
                let new_count = if old_m.review_count < u32::MAX {
                    old_m.review_count + 1
                } else {
                    old_m.review_count
                };
                let new_m = Memory { review_count: new_count, last_reviewed_at: Some(now), ..old_m };
                self.memories.insert(i, new_m);
                proof {
                    broadcast use lemma_mem_views_index;

                    assert(self.memories@ =~= cur_mems.update(i as int, new_m));
                    assert(new_m@ == reviewed_memory(pre.memories[i as int], now as int));
                    assert(self@.memories =~= cur.memories.update(i as int, new_m@));
                    assert(self@.events =~= cur.events);
                }
            } else {
                proof {
                    broadcast use lemma_mem_views_index;

                    assert(self@.memories[i as int] == spec_review_all(
                        pre.memories,
                        scopes_v,
                        now as int,
                    )[i as int]);
                }
            }
            i += 1;
        }
        proof {
            broadcast use lemma_mem_views_index;

            assert(self@.memories =~= spec_review_all(pre.memories, scopes_v, now as int));
        }

        // Order the returned memories by rank.
        sort_memories(&mut picked, MemOrder::RankDesc);
        let r = picked;
        proof {
            broadcast use vstd::seq_lib::group_to_multiset_ensures;

            let filtered = pre_mems.filter(pred);
            assert(r@.len() == filtered.len());
            assert forall|k: int| 0 <= k < r@.len() implies init_selected(#[trigger] r@[k]@, scopes_v) by {
                assert(r@.to_multiset().count(r@[k]) > 0) by {
                    assert(r@.contains(r@[k]));
                }
                assert(filtered.to_multiset().count(r@[k]) > 0);
                assert(filtered.contains(r@[k]));
                let idx = choose|idx: int| 0 <= idx < filtered.len() && filtered[idx] == r@[k];
                assert(pred(filtered[idx])) by {
                    Seq::lemma_filter_pred(pre_mems, pred, idx);
                }
            }
        }

        // Pass three: one REVIEW event per returned memory, in order.
        let ghost mid = self@;
        let rn = r.len();
        let mut k: usize = 0;
        while k < rn
            invariant
                rn == r@.len(),
                rn <= pre.memories.len(),
                pre.events.len() + pre.memories.len() < i64::MAX,
                k <= rn,
                self@.memories == mid.memories,
                self@.events == pre.events + id_events(
                    pre.events.len() as int,
                    EventAction::Review,
                    ids_of(r@).take(k as int),
                    now as int,
                ),
            decreases rn - k,
        {
            self.log_event(EventAction::Review, Some(r[k].id.as_str()), None, now);
            proof {
                assert(self@.events =~= pre.events + id_events(
                    pre.events.len() as int,
                    EventAction::Review,
                    ids_of(r@).take(k + 1),
                    now as int,
                ));
            }
            k += 1;
        }
        proof {
            assert(ids_of(r@).take(rn as int) =~= ids_of(r@));
            assert(self@.events =~= pre.events + id_events(
                pre.events.len() as int,
                EventAction::Review,
                ids_of(r@),
                now as int,
            ));
        }
        r
    }

    /// Taps every memory whose content contains `pattern` as a
    /// (case-sensitive) substring: their tap counters go up by one and their
    /// tap timestamps are set to `now` in one batch, and one TAP event is
    /// appended per matched memory, in store order. Returns the matched ids,
    /// possibly none.
    #[verifier::loop_isolation(false)]
    pub fn tap_memories_by_match(&mut self, pattern: &str, now: i64) -> (r: Vec<String>)
        requires
            wf(old(self)@),
            old(self)@.events.len() + old(self)@.memories.len() < i64::MAX,
        ensures
            str_views(r@) == ids_of(old(self).memories@.filter(match_pred_m(pattern@))),
            final(self)@.memories == spec_tap_all(old(self)@.memories, pattern@, now as int),
            final(self)@.events == old(self)@.events + id_events(
                old(self)@.events.len() as int,
                EventAction::Tap,
                str_views(r@),
                now as int,
            ),
            wf(final(self)@),
    {
        let ghost pre = self@;
        let ghost pre_mems = self.memories@;
        let ghost pred = match_pred_m(pattern@);

        // Pass one: collect the ids of the matching memories, in store order.
        let mut picked: Vec<String> = Vec::new();
        let n = self.memories.len();
        let mut i: usize = 0;
        proof {
            reveal(Seq::filter);
            assert(str_views(picked@) =~= ids_of(pre_mems.take(0).filter(pred)));
        }
        while i < n
            invariant
                i <= n,
                self@ == pre,
                str_views(picked@) == ids_of(pre_mems.take(i as int).filter(pred)),
            decreases n - i,
        {
            let m = &self.memories[i];
            let sel = text::str_contains(m.content.as_str(), pattern);
            proof {
                broadcast use {lemma_mem_views_index, lemma_str_views_index, lemma_ids_of_index};

                reveal(Seq::filter);
                assert(pre_mems.take(i + 1).drop_last() =~= pre_mems.take(i as int));
                assert(pre_mems.take(i + 1).last() == pre_mems[i as int]);
                assert(m@ == pre.memories[i as int]);
                assert(sel == pred(pre_mems[i as int]));
            }
            if sel {
                let ghost old_picked = picked@;
                picked.push(m.id.clone());
                proof {
                    reveal(Seq::filter);
                    assert(pre_mems.take(i + 1).filter(pred) =~= pre_mems.take(i as int).filter(
                        pred,
                    ).push(pre_mems[i as int]));
                    lemma_str_views_push(old_picked, picked@[picked@.len() - 1]);
                    lemma_ids_of_push(pre_mems.take(i as int).filter(pred), pre_mems[i as int]);
                    assert(str_views(picked@) == ids_of(pre_mems.take(i + 1).filter(pred)));
                }
            } else {
                proof {
                    reveal(Seq::filter);
                    assert(pre_mems.take(i + 1).filter(pred) =~= pre_mems.take(i as int).filter(pred));
                    assert(str_views(picked@) =~= ids_of(pre_mems.take(i + 1).filter(pred)));
                }
            }
            i += 1;
        }
        proof {
            assert(pre_mems.take(n as int) =~= pre_mems);
            Seq::lemma_filter_len(pre_mems, pred);
            assert(picked@.len() <= n) by {
                assert(str_views(picked@).len() == ids_of(pre_mems.filter(pred)).len());
            }
        }

        // Pass two: tap every matching memory.
        let mut i: usize = 0;
        while i < n
            invariant
                i <= n,
                self@.events == pre.events,
                self.memories@.len() == n,
                forall|j: int|
                    0 <= j < i ==> #[trigger] self@.memories[j] == spec_tap_all(
                        pre.memories,
                        pattern@,
                        now as int,
                    )[j],
                forall|j: int| i <= j < n ==> #[trigger] self.memories@[j] == pre_mems[j],
            decreases n - i,
        {
            let ghost cur = self@;
            let ghost cur_mems = self.memories@;
            let m = &self.memories[i];
            let sel = text::str_contains(m.content.as_str(), pattern);
            proof {
                broadcast use lemma_mem_views_index;

                assert(self.memories@[i as int] == pre_mems[i as int]);
                assert(sel == match_pred(pre.memories[i as int], pattern@));
            }
            if sel {
                let old_m = self.memories.remove(i);
                let new_count = if old_m.tap_count < u32::MAX { old_m.tap_count + 1 } else { old_m.tap_count };
                let new_m = Memory { tap_count: new_count, last_tapped_at: Some(now), ..old_m };
                self.memories.insert(i, new_m);
                proof {
                    broadcast use lemma_mem_views_index;

                    assert(self.memories@ =~= cur_mems.update(i as int, new_m));
                    assert(new_m@ == tapped_memory(pre.memories[i as int], now as int));
                    assert(self@.memories =~= cur.memories.update(i as int, new_m@));
                    assert(self@.events =~= cur.events);
                }
            } else {
                proof {
                    broadcast use lemma_mem_views_index;

                    assert(self@.memories[i as int] == spec_tap_all(
                        pre.memories,
                        pattern@,
                        now as int,
                    )[i as int]);
                }
            }
            i += 1;
        }
        proof {
            broadcast use lemma_mem_views_index;

            assert(self@.memories =~= spec_tap_all(pre.memories, pattern@, now as int));
        }

        // Pass three: one TAP event per matched memory, in order.
        let r = picked;
        let ghost mid = self@;
        let rn = r.len();
        let mut k: usize = 0;
        while k < rn
            invariant
                k <= rn,
                self@.memories == mid.memories,
                self@.events == pre.events + id_events(
                    pre.events.len() as int,
                    EventAction::Tap,
                    str_views(r@).take(k as int),
                    now as int,
                ),
            decreases rn - k,
        {
            self.log_event(EventAction::Tap, Some(r[k].as_str()), None, now);
            proof {
                assert(self@.events =~= pre.events + id_events(
                    pre.events.len() as int,
                    EventAction::Tap,
                    str_views(r@).take(k + 1),
                    now as int,
                ));
            }
            k += 1;
        }
        proof {
            assert(str_views(r@).take(rn as int) =~= str_views(r@));
            assert(self@.events =~= pre.events + id_events(
                pre.events.len() as int,
                EventAction::Tap,
                str_views(r@),
                now as int,
            ));
        }
        r
    }

    /// The ledger entries matching the optional exact action and the
    /// optional exact memory id, newest first (by sequence number), at most
    /// `limit` of them. Nothing is changed: the ledger has no update or
    /// delete.
    #[verifier::loop_isolation(false)]
    pub fn get_events(&self, limit: u32, action: Option<EventAction>, memory_id: Option<&str>) -> (r: Vec<Event>)
        ensures
            r@ == query_events(self.events@, limit as int, action, opt_str_view(memory_id)),
    {
        let ghost pred = event_pred_m(action, opt_str_view(memory_id));
        let ghost es = self.events@;

        let mut picked: Vec<Event> = Vec::new();
        let n = self.events.len();
        let mut i: usize = 0;
        proof {
            reveal(Seq::filter);
            assert(picked@ =~= es.take(0).filter(pred));
        }
        while i < n
            invariant
                i <= n,
                picked@ == es.take(i as int).filter(pred),
            decreases n - i,
        {
            let e = &self.events[i];
            let sel = (match action {
                Some(a) => e.action == a,
                None => true,
            }) && (match memory_id {
                Some(id) => match &e.memory_id {
                    Some(eid) => text::str_eq(eid.as_str(), id),
                    None => false,
                },
                None => true,
            });
            proof {
                lemma_filter_take_step(es, i as int, pred);
                assert(sel == pred(es[i as int]));
            }
            if sel {
                picked.push(e.duplicate());
            }
            proof {
                assert(picked@ =~= es.take(i + 1).filter(pred));
            }
            i += 1;
        }
        proof {
            assert(es.take(n as int) =~= es);
        }
        let ghost f = es.filter(pred);

        // Newest first: reverse the matches, then cut to the limit.
        let mut rev: Vec<Event> = Vec::new();
        while picked.len() > 0
            invariant
                picked@ == f.take(f.len() - rev@.len()),
                rev@ == f.reverse().take(rev@.len() as int),
                rev@.len() <= f.len(),
            decreases picked@.len(),
        {
            let ghost j = rev@.len() as int;
            let x = match picked.pop() {
                Some(x) => x,
                None => {
                    proof {
                        assert(false);
                    }
                    unreached()
                },
            };
            rev.push(x);
            proof {
                assert(picked@ =~= f.take(f.len() - rev@.len()));
                assert(f.reverse()[j] == f[f.len() - 1 - j]);
                assert(rev@ =~= f.reverse().take(j + 1));
            }
        }
        proof {
            assert(rev@ =~= f.reverse());
        }
        let limit_us = limit as usize;
        rev.truncate(limit_us);
        proof {
            if limit_us <= f.len() {
                assert(rev@ =~= query_events(es, limit as int, action, opt_str_view(memory_id)));
            } else {
                assert(f.reverse().take(f.len() as int) =~= f.reverse());
                assert(rev@ =~= query_events(es, limit as int, action, opt_str_view(memory_id)));
            }
        }
        rev
    }

    /// Appends one immutable entry to the event ledger.
    pub fn log_event(
        &mut self,
        action: EventAction,
        memory_id: Option<&str>,
        data: Option<&str>,
        now: i64,
    )
        requires
            old(self)@.events.len() < i64::MAX,
        ensures
            final(self)@ == spec_log(old(self)@, action, opt_str_view(memory_id), opt_str_view(data), now as int),
    {
        let id: i64 = (self.events.len() as i64) + 1;
        let e = Event {
            id,
            timestamp: now,
            action,
            memory_id: match memory_id {
                Some(s) => Some(s.to_owned()),
                None => None,
            },
            data: match data {
                Some(s) => Some(s.to_owned()),
                None => None,
            },
        };
        self.events.push(e);
        proof {
            assert(self@.events =~= old(self)@.events.push(
                new_event(old(self)@, action, opt_str_view(memory_id), opt_str_view(data), now as int),
            ));
            assert(self@.memories =~= old(self)@.memories);
        }
    }

    /// Adds a memory under a caller-supplied fresh id: the record starts at
    /// generation 0 with zero counters, and an ADD event carrying the content
    /// and scope is appended.
    pub fn add_with_id(&mut self, id: &str, content: &str, scope: &str, now: i64)
        requires
            wf(old(self)@),
            spec_get(old(self)@, id@) is None,
            old(self)@.events.len() < i64::MAX,
        ensures
            final(self)@ == spec_add(old(self)@, id@, content@, scope@, now as int),
            wf(final(self)@),
    {
        let ghost pre = self@;
        let m = Memory {
            id: id.to_owned(),
            content: content.to_owned(),
            scope: scope.to_owned(),
            generation: 0,
            tap_count: 0,
            review_count: 0,
            last_tapped_at: None,
            last_reviewed_at: None,
            created_at: now,
        };
        self.memories.push(m);
        proof {
            assert(self@.memories =~= pre.memories.push(new_memory(id@, content@, scope@, now as int)));
            assert(self@.events =~= pre.events);
        }
        let data = payload::build_add_payload(content, scope);
        self.log_event(EventAction::Add, Some(id), Some(data.as_str()), now);
        proof {
            let post = spec_add(pre, id@, content@, scope@, now as int);
            assert(self@.memories =~= post.memories);
            assert(self@.events =~= post.events);
            // The fresh id keeps memory ids unique.
            lemma_mem_index(pre.memories, id@);
            assert forall|i: int, j: int|
                0 <= i < j < self@.memories.len() implies self@.memories[i].id != self@.memories[j].id by {
                if j == pre.memories.len() {
                    assert(pre.memories[i].id != id@);
                }
            }
        }
    }

    /// Adds a memory under a freshly generated id and returns the id: the
    /// record starts at generation 0 with zero counters, and an ADD event
    /// carrying the content and scope is appended. Returns `None`, with the
    /// store unchanged, only when the generated id collides with an
    /// existing one — so on an empty store it always succeeds, and a failure
    /// witnesses an existing memory whose id has the generated hexadecimal
    /// shape.
    pub fn add_memory(&mut self, content: &str, scope: &str, now: i64) -> (r: Option<String>)
        requires
            wf(old(self)@),
            old(self)@.events.len() < i64::MAX,
        ensures
            r matches Some(id) ==> spec_get(old(self)@, id@) is None && final(self)@ == spec_add(
                old(self)@,
                id@,
                content@,
                scope@,
                now as int,
            ),
            r matches Some(id) ==> 2 <= id@.len() <= 32 && crate::ident::all_hex(id@),
            r is None ==> final(self)@ == old(self)@,
            old(self)@.memories.len() == 0 ==> r is Some,
            r is None ==> exists|k: int|
                0 <= k < old(self)@.memories.len() && 2 <= (#[trigger] old(self)@.memories[k]).id.len()
                    <= 32 && crate::ident::all_hex(old(self)@.memories[k].id),
            wf(final(self)@),
    {
        let id = crate::ident::generate_id();
        let i = self.find_index(id.as_str());
        proof {
            lemma_mem_index(self@.memories, id@);
        }
        if i < self.memories.len() {
            proof {
                assert(self@.memories[i as int].id == id@);
            }
            return None;
        }
        self.add_with_id(id.as_str(), content, scope, now);
        Some(id)
    }

    /// The memory with the given id; absence is a valid "not found" result,
    /// not an error.
    pub fn get_memory(&self, id: &str) -> (r: Option<Memory>)
        ensures
            r is Some <==> spec_get(self@, id@) is Some,
            r matches Some(m) ==> m@ == spec_get(self@, id@)->0,
    {
        let i = self.find_index(id);
        proof {
            lemma_mem_index(self@.memories, id@);
        }
        if i < self.memories.len() {
            Some(self.memories[i].duplicate())
        } else {
            None
        }
    }

    /// Replaces the content of the memory with the given id and appends an
    /// EDIT event carrying the old and new content. Returns false, with the
    /// store unchanged, if the id is absent.
    pub fn edit_memory(&mut self, id: &str, new_content: &str, now: i64) -> (r: bool)
        requires
            wf(old(self)@),
            old(self)@.events.len() < i64::MAX,
        ensures
            r == (spec_get(old(self)@, id@) is Some),
            r ==> final(self)@ == spec_edit(old(self)@, mem_index(old(self)@.memories, id@), new_content@, now as int),
            !r ==> final(self)@ == old(self)@,
            wf(final(self)@),
    {
        let ghost pre = self@;
        let i = self.find_index(id);
        proof {
            lemma_mem_index(pre.memories, id@);
        }
        if i >= self.memories.len() {
            return false;
        }
        let ghost gi = i as int;
        let old_m = self.memories.remove(i);
        let data = payload::build_edit_payload(old_m.content.as_str(), new_content);
        let new_m = Memory { content: new_content.to_owned(), ..old_m };
        self.memories.insert(i, new_m);
        proof {
            assert(self@.memories =~= pre.memories.update(
                gi,
                MemoryView { content: new_content@, ..pre.memories[gi] },
            ));
            assert(self@.events =~= pre.events);
        }
        self.log_event(EventAction::Edit, Some(id), Some(data.as_str()), now);
        proof {
            let post = spec_edit(pre, gi, new_content@, now as int);
            assert(self@.memories =~= post.memories);
            assert(self@.events =~= post.events);
        }
        true
    }

    /// Hard-deletes the memory with the given id and appends a REMOVE event.
    /// Returns false, with the store unchanged, if the id is absent.
    pub fn remove_memory(&mut self, id: &str, now: i64) -> (r: bool)
        requires
            wf(old(self)@),
            old(self)@.events.len() < i64::MAX,
        ensures
            r == (spec_get(old(self)@, id@) is Some),
            r ==> final(self)@ == spec_remove(old(self)@, mem_index(old(self)@.memories, id@), now as int),
            !r ==> final(self)@ == old(self)@,
            wf(final(self)@),
    {
        let ghost pre = self@;
        let i = self.find_index(id);
        proof {
            lemma_mem_index(pre.memories, id@);
        }
        if i >= self.memories.len() {
            return false;
        }
        let ghost gi = i as int;
        let _removed = self.memories.remove(i);
        proof {
            assert(self@.memories =~= pre.memories.remove(gi));
            assert(self@.events =~= pre.events);
        }
        self.log_event(EventAction::Remove, Some(id), None, now);
        proof {
            let post = spec_remove(pre, gi, now as int);
            assert(self@.memories =~= post.memories);
            assert(self@.events =~= post.events);
        }
        true
    }

    /// Records one use of the memory with the given id: its tap counter goes
    /// up by one, its tap timestamp is set to `now`, and a TAP event is
    /// appended. Returns false, with the store unchanged and no event, if the
    /// id is absent.
    pub fn tap_memory(&mut self, id: &str, now: i64) -> (r: bool)
        requires
            wf(old(self)@),
            old(self)@.events.len() < i64::MAX,
        ensures
            r == (spec_get(old(self)@, id@) is Some),
            r ==> final(self)@ == spec_tap(old(self)@, mem_index(old(self)@.memories, id@), now as int),
            !r ==> final(self)@ == old(self)@,
            wf(final(self)@),
    {
        let ghost pre = self@;
        let i = self.find_index(id);
        proof {
            lemma_mem_index(pre.memories, id@);
        }
        if i >= self.memories.len() {
            return false;
        }
        let ghost gi = i as int;
        let old_m = self.memories.remove(i);
        let new_count = if old_m.tap_count < u32::MAX { old_m.tap_count + 1 } else { old_m.tap_count };
        let new_m = Memory { tap_count: new_count, last_tapped_at: Some(now), ..old_m };
        self.memories.insert(i, new_m);
        proof {
            assert(self@.memories =~= pre.memories.update(gi, tapped_memory(pre.memories[gi], now as int)));
            assert(self@.events =~= pre.events);
        }
        self.log_event(EventAction::Tap, Some(id), None, now);
        proof {
            let post = spec_tap(pre, gi, now as int);
            assert(self@.memories =~= post.memories);
            assert(self@.events =~= post.events);
        }
        true
    }
}

} // verus!
