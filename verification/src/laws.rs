//! The store's laws: what holds of every state and every input, proved once
//! and for all over the spec-level transitions that the executable
//! operations are verified against.

use vstd::prelude::*;
use crate::gc::{
    gc_expire, gc_expire_p, gc_keep_p, gc_mem_after, gc_promote01, gc_promote01_p, gc_promote12,
    GcParams, spec_gc_memories,
};
use crate::store::{
    ids_of, match_pred_m, mem_index, lemma_mem_index, lemma_mem_index_unique, new_memory,
    spec_add, spec_get, spec_tap, tapped_memory, wf, EventAction, EventView, Memory, MemoryView,
    StoreView,
};
use crate::text::contains_sub;

verus! {

/// Adding a memory under a fresh id and then looking that id up finds a
/// record holding exactly the given content and scope, at generation 0 with
/// both counters zero; and the ledger has grown by the one ADD entry.
pub proof fn lemma_add_then_get(
    sv: StoreView,
    id: Seq<char>,
    content: Seq<char>,
    scope: Seq<char>,
    now: int,
)
    requires
        wf(sv),
        spec_get(sv, id) is None,
    ensures
        ({
            let post = spec_add(sv, id, content, scope, now);
            &&& spec_get(post, id) == Some(new_memory(id, content, scope, now))
            &&& spec_get(post, id)->0.content == content
            &&& spec_get(post, id)->0.scope == scope
            &&& spec_get(post, id)->0.generation == 0
            &&& spec_get(post, id)->0.tap_count == 0
            &&& spec_get(post, id)->0.review_count == 0
            &&& post.events.len() == sv.events.len() + 1
            &&& post.events.last().action == EventAction::Add
            &&& post.events.last().memory_id == Some(id)
        }),
{
    let post = spec_add(sv, id, content, scope, now);
    let pushed = sv.memories.push(new_memory(id, content, scope, now));
    lemma_mem_index(sv.memories, id);
    assert forall|j: int| 0 <= j < sv.memories.len() implies pushed[j].id != id by {
        assert(pushed[j] == sv.memories[j]);
    }
    lemma_mem_index_unique(pushed, id, sv.memories.len() as int);
    assert(post.memories == pushed);
}

/// Tapping an existing memory raises its tap counter by exactly one and
/// stamps it with the tap time, leaves its other fields and every other
/// memory unchanged, and appends exactly one TAP entry naming it. (The
/// executable operation returns false and changes nothing when the id is
/// absent; its contract says so directly.)
pub proof fn lemma_tap_effect(sv: StoreView, id: Seq<char>, now: int)
    requires
        wf(sv),
        spec_get(sv, id) is Some,
        spec_get(sv, id)->0.tap_count < u32::MAX,
    ensures
        ({
            let m = spec_get(sv, id)->0;
            let post = spec_tap(sv, mem_index(sv.memories, id), now);
            &&& spec_get(post, id) == Some(
                MemoryView { tap_count: m.tap_count + 1, last_tapped_at: Some(now), ..m },
            )
            &&& forall|other: Seq<char>|
                other != id ==> #[trigger] spec_get(post, other) == spec_get(sv, other)
            &&& post.events == sv.events.push(
                EventView {
                    id: sv.events.len() as int + 1,
                    timestamp: now,
                    action: EventAction::Tap,
                    memory_id: Some(id),
                    data: None,
                },
            )
        }),
{
    let i = mem_index(sv.memories, id);
    lemma_mem_index(sv.memories, id);
    let m = sv.memories[i];
    let post = spec_tap(sv, i, now);
    let updated = sv.memories.update(i, tapped_memory(m, now));
    assert(post.memories == updated);
    assert forall|j: int| 0 <= j < i implies updated[j].id != id by {
        assert(updated[j] == sv.memories[j]);
    }
    lemma_mem_index_unique(updated, id, i);
    assert(spec_get(post, id) == Some(tapped_memory(m, now)));
    assert(tapped_memory(m, now) == MemoryView {
        tap_count: m.tap_count + 1,
        last_tapped_at: Some(now),
        ..m
    });
    assert forall|other: Seq<char>|
        other != id implies #[trigger] spec_get(post, other) == spec_get(sv, other) by {
        lemma_mem_index(updated, other);
        lemma_mem_index(sv.memories, other);
        let a = mem_index(updated, other);
        let b = mem_index(sv.memories, other);
        assert forall|j: int| 0 <= j < a implies sv.memories[j].id != other by {
            assert(updated[j].id != other);
            assert(updated[j].id == sv.memories[j].id);
        }
        if a < updated.len() {
            assert(updated[a].id == other);
            assert(updated[a].id == sv.memories[a].id);
        }
        lemma_mem_index_unique(sv.memories, other, a);
        if b < sv.memories.len() {
            assert(updated[b] == sv.memories[b]) by {
                assert(sv.memories[b].id == other);
                assert(b != i);
            }
        }
    }
}

/// Tapping by substring match selects exactly the memories whose content
/// contains the pattern: a memory's id stands among the matched ids if and
/// only if its content contains the pattern.
pub proof fn lemma_tap_by_match_exact(ms: Seq<Memory>, pattern: Seq<char>)
    requires
        forall|i: int, j: int| 0 <= i < j < ms.len() ==> ms[i]@.id != ms[j]@.id,
    ensures
        ({
            let matched = ids_of(ms.filter(match_pred_m(pattern)));
            forall|i: int|
                0 <= i < ms.len() ==> (contains_sub(#[trigger] ms[i]@.content, pattern)
                    <==> matched.contains(ms[i]@.id))
        }),
{
    broadcast use crate::store::lemma_ids_of_index;

    let pred = match_pred_m(pattern);
    let f = ms.filter(pred);
    let matched = ids_of(f);
    assert forall|i: int|
        0 <= i < ms.len() implies (contains_sub(#[trigger] ms[i]@.content, pattern)
        <==> matched.contains(ms[i]@.id)) by {
        if contains_sub(ms[i]@.content, pattern) {
            Seq::lemma_filter_contains(ms, pred, i);
            assert(f.contains(ms[i]));
            let k = choose|k: int| 0 <= k < f.len() && f[k] == ms[i];
            assert(matched[k] == ms[i]@.id);
            assert(matched.contains(ms[i]@.id));
        }
        if matched.contains(ms[i]@.id) {
            let k = choose|k: int| 0 <= k < matched.len() && matched[k] == ms[i]@.id;
            assert(f[k]@.id == ms[i]@.id);
            Seq::lemma_filter_pred(ms, pred, k);
            assert(f.contains(f[k]));
            Seq::lemma_filter_contains_rev(ms, pred, f[k]);
            let j = choose|j: int| 0 <= j < ms.len() && ms[j] == f[k];
            assert(ms[j]@.id == ms[i]@.id);
            if i != j {
                if i < j {
                    assert(ms[i]@.id != ms[j]@.id);
                } else {
                    assert(ms[j]@.id != ms[i]@.id);
                }
            }
            assert(pred(ms[i]));
        }
    }
}

/// A garbage-collection pass applies exactly what it reports: a memory
/// vanishes if and only if the policy expires it; one the policy promotes
/// survives with precisely its generation raised; one the policy leaves
/// alone survives unchanged. With `dry_run` the operation's contract states
/// directly that the same lists are reported and nothing changes.
pub proof fn lemma_gc_preview(ms: Seq<MemoryView>, p: GcParams)
    requires
        forall|i: int, j: int| 0 <= i < j < ms.len() ==> ms[i].id != ms[j].id,
    ensures
        ({
            let kept = spec_gc_memories(ms, p);
            forall|i: int|
                0 <= i < ms.len() ==> {
                    &&& (gc_expire(#[trigger] ms[i], p) <==> !exists|k: int|
                        0 <= k < kept.len() && (#[trigger] kept[k]).id == ms[i].id)
                    &&& (gc_promote01(ms[i], p) && !gc_expire(ms[i], p) ==> kept.contains(
                        MemoryView { generation: 1, ..ms[i] },
                    ))
                    &&& (gc_promote12(ms[i], p) ==> kept.contains(MemoryView { generation: 2, ..ms[i] }))
                    &&& (!gc_expire(ms[i], p) && !gc_promote01(ms[i], p) && !gc_promote12(ms[i], p)
                        ==> kept.contains(ms[i]))
                }
        }),
{
    broadcast use vstd::seq_lib::group_to_multiset_ensures;

    let keep = gc_keep_p(p);
    let f = ms.filter(keep);
    let kept = spec_gc_memories(ms, p);
    assert(kept.len() == f.len());
    assert forall|i: int| 0 <= i < ms.len() implies {
        &&& (gc_expire(#[trigger] ms[i], p) <==> !exists|k: int|
            0 <= k < kept.len() && (#[trigger] kept[k]).id == ms[i].id)
        &&& (gc_promote01(ms[i], p) && !gc_expire(ms[i], p) ==> kept.contains(
            MemoryView { generation: 1, ..ms[i] },
        ))
        &&& (gc_promote12(ms[i], p) ==> kept.contains(MemoryView { generation: 2, ..ms[i] }))
        &&& (!gc_expire(ms[i], p) && !gc_promote01(ms[i], p) && !gc_promote12(ms[i], p)
            ==> kept.contains(ms[i]))
    } by {
        if gc_expire(ms[i], p) {
            // The record is gone: no kept record carries its id.
            assert forall|k: int| 0 <= k < kept.len() implies (#[trigger] kept[k]).id != ms[i].id by {
                assert(kept[k] == gc_mem_after(f[k], p));
                Seq::lemma_filter_pred(ms, keep, k);
                assert(f.contains(f[k]));
                Seq::lemma_filter_contains_rev(ms, keep, f[k]);
                let j = choose|j: int| 0 <= j < ms.len() && ms[j] == f[k];
                assert(!gc_expire(ms[j], p));
                assert(j != i);
                assert(kept[k].id == ms[j].id);
                if j < i {
                    assert(ms[j].id != ms[i].id);
                } else {
                    assert(ms[i].id != ms[j].id);
                }
            }
        } else {
            // The record survives, with its decided generation.
            Seq::lemma_filter_contains(ms, keep, i);
            assert(f.contains(ms[i]));
            let k = choose|k: int| 0 <= k < f.len() && f[k] == ms[i];
            assert(kept[k] == gc_mem_after(ms[i], p));
            assert(kept.contains(kept[k]));
            assert(kept[k].id == ms[i].id);
            if gc_promote01(ms[i], p) {
                assert(gc_mem_after(ms[i], p) == MemoryView { generation: 1, ..ms[i] });
            } else if gc_promote12(ms[i], p) {
                assert(gc_mem_after(ms[i], p) == MemoryView { generation: 2, ..ms[i] });
            } else {
                assert(gc_mem_after(ms[i], p) == ms[i]);
            }
        }
    }
}

/// Running the policy again right after a pass finds no further expiry and
/// no further promotion out of generation 0: every low-engagement record is
/// already gone and every qualifying generation-0 record already rose. The
/// one residue is a record promoted to generation 1 whose tap count already
/// reaches twice the threshold: the next pass lifts it to generation 2.
pub proof fn lemma_gc_rerun_settles_gen0(ms: Seq<MemoryView>, p: GcParams)
    ensures
        spec_gc_memories(ms, p).filter(gc_expire_p(p)).len() == 0,
        spec_gc_memories(ms, p).filter(gc_promote01_p(p)).len() == 0,
{
    let keep = gc_keep_p(p);
    let f = ms.filter(keep);
    let kept = spec_gc_memories(ms, p);
    assert forall|k: int|
        0 <= k < kept.len() implies !gc_expire(#[trigger] kept[k], p) && !gc_promote01(kept[k], p) by {
        assert(kept[k] == gc_mem_after(f[k], p));
        Seq::lemma_filter_pred(ms, keep, k);
        assert(!gc_expire(f[k], p));
        if gc_promote01(f[k], p) {
            assert(kept[k].generation == 1);
        } else if gc_promote12(f[k], p) {
            assert(kept[k].generation == 2);
        } else {
            assert(kept[k] == f[k]);
        }
    }
    let fe = kept.filter(gc_expire_p(p));
    if fe.len() > 0 {
        Seq::lemma_filter_pred(kept, gc_expire_p(p), 0);
        assert(fe.contains(fe[0]));
        Seq::lemma_filter_contains_rev(kept, gc_expire_p(p), fe[0]);
        let j = choose|j: int| 0 <= j < kept.len() && kept[j] == fe[0];
        assert(!gc_expire(kept[j], p));
        assert(false);
    }
    let fp = kept.filter(gc_promote01_p(p));
    if fp.len() > 0 {
        Seq::lemma_filter_pred(kept, gc_promote01_p(p), 0);
        assert(fp.contains(fp[0]));
        Seq::lemma_filter_contains_rev(kept, gc_promote01_p(p), fp[0]);
        let j = choose|j: int| 0 <= j < kept.len() && kept[j] == fp[0];
        assert(!gc_promote01(kept[j], p));
        assert(false);
    }
}

} // verus!
