//! Enriched ledger entries: each event carries readable content, looked up
//! from its payload or, for TAP events, from the memory it refers to.

use vstd::prelude::*;
use crate::payload::{json_field, json_str_field};
use crate::store::{
    opt_str_view, query_events, spec_get, Event, EventAction, EventView, Store, StoreView,
};

verus! {

/// A ledger entry with its content resolved for display.
#[derive(Debug)]
pub struct EnrichedEvent {
    /// When the event was recorded.
    pub timestamp: i64,
    /// What happened.
    pub action: EventAction,
    /// The memory the event concerns, if any.
    pub memory_id: Option<String>,
    /// The event's payload content, or the referenced memory's content for
    /// a TAP event, or a placeholder.
    pub content: String,
}

/// The content carried by an event payload: the content field for an added
/// or promoted memory, the new text for an edit, and the raw payload
/// otherwise or when the payload does not parse as expected.
pub open spec fn extracted_content(action: EventAction, data: Seq<char>) -> Seq<char> {
    if action == EventAction::Add || action == EventAction::Promote {
        match json_field(data, "content"@) {
            Some(c) => c,
            None => data,
        }
    } else if action == EventAction::Edit {
        match json_field(data, "new"@) {
            Some(c) => c,
            None => data,
        }
    } else {
        data
    }
}

/// The content an enriched event shows for a ledger entry, given the store
/// it is resolved against.
pub open spec fn enriched_content(sv: StoreView, e: EventView) -> Seq<char> {
    match e.data {
        Some(d) => extracted_content(e.action, d),
        None => if e.action == EventAction::Tap {
            match e.memory_id {
                Some(id) => match spec_get(sv, id) {
                    Some(m) => m.content,
                    None => "(memory not found)"@,
                },
                None => "(no memory id)"@,
            }
        } else {
            "(none)"@
        },
    }
}

/// Whether an enriched event faithfully renders a ledger entry.
pub open spec fn enriches(ee: EnrichedEvent, sv: StoreView, e: Event) -> bool {
    &&& ee.timestamp == e.timestamp
    &&& ee.action == e.action
    &&& ee.memory_id == e.memory_id
    &&& ee.content@ == enriched_content(sv, e@)
}

/// Whether an event survives the promoted-tap filter: with
/// `include_promoted_taps` everything does; without it, TAP events whose
/// memory now stands at generation 1 or higher are dropped.
pub open spec fn keeps_event(sv: StoreView, e: Event, include_promoted_taps: bool) -> bool {
    ||| include_promoted_taps
    ||| !(e@.action == EventAction::Tap && (match e@.memory_id {
        Some(id) => match spec_get(sv, id) {
            Some(m) => m.generation >= 1,
            None => false,
        },
        None => false,
    }))
}

pub open spec fn keeps_event_f(sv: StoreView, include_promoted_taps: bool) -> spec_fn(Event) -> bool {
    |e: Event| keeps_event(sv, e, include_promoted_taps)
}

/// Extracts the displayable content from an event payload.
pub fn extract_content(action: EventAction, json_data: &str) -> (r: String)
    ensures
        r@ == extracted_content(action, json_data@),
{
    match action {
        EventAction::Add | EventAction::Promote => {
            match json_str_field(json_data, "content") {
                Some(c) => c,
                None => json_data.to_owned(),
            }
        },
        EventAction::Edit => {
            match json_str_field(json_data, "new") {
                Some(c) => c,
                None => json_data.to_owned(),
            }
        },
        _ => json_data.to_owned(),
    }
}

impl EnrichedEvent {
    /// Renders a ledger entry against the store: payload content where the
    /// entry carries one, the referenced memory's content for a TAP entry,
    /// a placeholder otherwise.
    pub fn from_event(store: &Store, event: &Event) -> (r: EnrichedEvent)
        ensures
            enriches(r, store@, *event),
    {
        let content: String = match &event.data {
            Some(d) => extract_content(event.action, d.as_str()),
            None => {
                if event.action == EventAction::Tap {
                    match &event.memory_id {
                        Some(id) => match store.get_memory(id.as_str()) {
                            Some(m) => m.content,
                            None => "(memory not found)".to_owned(),
                        },
                        None => "(no memory id)".to_owned(),
                    }
                } else {
                    "(none)".to_owned()
                }
            },
        };
        EnrichedEvent {
            timestamp: event.timestamp,
            action: event.action,
            memory_id: match &event.memory_id {
                Some(s) => Some(s.clone()),
                None => None,
            },
            content,
        }
    }
}

impl Store {
    /// The ledger, queried as `get_events` does, rendered for display:
    /// unless `include_promoted_taps` is set, TAP entries for memories that
    /// have since been promoted are dropped; every remaining entry carries
    /// its resolved content.
    #[verifier::loop_isolation(false)]
    pub fn get_enriched_events(
        &self,
        limit: u32,
        action: Option<EventAction>,
        memory_id: Option<&str>,
        include_promoted_taps: bool,
    ) -> (r: Vec<EnrichedEvent>)
        ensures
            ({
                let kept = query_events(self.events@, limit as int, action, opt_str_view(memory_id)).filter(
                    keeps_event_f(self@, include_promoted_taps),
                );
                &&& r@.len() == kept.len()
                &&& forall|k: int| 0 <= k < kept.len() ==> enriches(#[trigger] r@[k], self@, kept[k])
            }),
    {
        let events = self.get_events(limit, action, memory_id);
        let ghost q = query_events(self.events@, limit as int, action, opt_str_view(memory_id));
        let ghost keepf = keeps_event_f(self@, include_promoted_taps);
        let mut r: Vec<EnrichedEvent> = Vec::new();
        let n = events.len();
        let mut i: usize = 0;
        proof {
            reveal(Seq::filter);
            assert(q.take(0).filter(keepf) =~= Seq::<Event>::empty());
        }
        while i < n
            invariant
                i <= n,
                n == q.len(),
                events@ == q,
                r@.len() == q.take(i as int).filter(keepf).len(),
                forall|k: int|
                    0 <= k < r@.len() ==> enriches(
                        #[trigger] r@[k],
                        self@,
                        q.take(i as int).filter(keepf)[k],
                    ),
            decreases n - i,
        {
            let e = &events[i];
            let keep = if include_promoted_taps {
                true
            } else {
                let promoted_tap = e.action == EventAction::Tap && (match &e.memory_id {
                    Some(id) => match self.get_memory(id.as_str()) {
                        Some(m) => m.generation >= 1,
                        None => false,
                    },
                    None => false,
                });
                !promoted_tap
            };
            proof {
                crate::store::lemma_filter_take_step(q, i as int, keepf);
                assert(keep == keepf(q[i as int]));
            }
            if keep {
                r.push(EnrichedEvent::from_event(self, e));
            }
            i += 1;
        }
        proof {
            assert(q.take(n as int) =~= q);
        }
        r
    }
}

} // verus!
