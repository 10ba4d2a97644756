use crate::db::Database;
use crate::model::{
    batch_applied, empty_db_view, event_applied, event_valid, first_invalid,
    lemma_batch_applied_snoc, lemma_first_invalid_props,
};
use crate::types::{spec_parse_operation, Event, EventView, InsertError, Principal};
use vstd::prelude::*;

verus! {

broadcast use vstd::std_specs::vec::group_vec_axioms;

/// One curated collection's state: which collection this instance accepts
/// events for, who may submit them, and the index itself.  The transport
/// shell owns one instance and serializes all access to it.
pub struct Ledger {
    /// The collection this instance curates.
    pub nft_canister_id: Principal,
    /// The principals authorized to submit events; policy the shell enforces.
    pub custodians: Vec<Principal>,
    /// The curation index.
    pub db: Database,
}

impl Ledger {
    /// A fresh instance, curating the default collection until configured.
    pub fn new() -> (l: Ledger)
        ensures
            l.db.wf(),
            l.db@ == empty_db_view(),
            l.nft_canister_id@ == Seq::<u8>::empty(),
            l.custodians@.len() == 0,
    {
        Ledger {
            nft_canister_id: Principal::management_canister(),
            custodians: Vec::new(),
            db: Database::new(),
        }
    }
}

/// Accepts one event for the instance's collection and applies it; an event
/// for another collection, or with an unknown operation tag, is rejected
/// with nothing changed.
pub fn insert(ledger: &mut Ledger, event: Event, now: u64) -> (r: Result<(), InsertError>)
    requires
        old(ledger).db.wf(),
    ensures
        final(ledger).db.wf(),
        final(ledger).nft_canister_id@ == old(ledger).nft_canister_id@,
        final(ledger).custodians == old(ledger).custodians,
        match r {
            Ok(_) => {
                &&& event_valid(old(ledger).nft_canister_id@, event@)
                &&& event_applied(old(ledger).db@, final(ledger).db@, event@, now)
            },
            Err(InsertError::WrongCanister) => {
                &&& event@.nft_canister_id != old(ledger).nft_canister_id@
                &&& final(ledger).db@ == old(ledger).db@
            },
            Err(InsertError::UnknownOperation) => {
                &&& event@.nft_canister_id == old(ledger).nft_canister_id@
                &&& spec_parse_operation(event@.operation) is None
                &&& final(ledger).db@ == old(ledger).db@
            },
        },
{
    if !event.nft_canister_id.eq_bytes(&ledger.nft_canister_id) {
        return Err(InsertError::WrongCanister);
    }
    match ledger.db.index_event(event, now) {
        Ok(_) => Ok(()),
        Err(_) => Err(InsertError::UnknownOperation),
    }
}

/// Accepts a batch of events and applies them in order, stopping at the
/// first event the instance rejects; the events before it stay applied.
#[verifier::loop_isolation(false)]
pub fn batch_insert(ledger: &mut Ledger, events: Vec<Event>, now: u64) -> (r: Result<
    (),
    InsertError,
>)
    requires
        old(ledger).db.wf(),
    ensures
        final(ledger).db.wf(),
        final(ledger).nft_canister_id@ == old(ledger).nft_canister_id@,
        final(ledger).custodians == old(ledger).custodians,
        match first_invalid(old(ledger).nft_canister_id@, events@.map_values(|e: Event| e@)) {
            None => r is Ok && batch_applied(
                old(ledger).db@,
                final(ledger).db@,
                events@.map_values(|e: Event| e@),
                now,
            ),
            Some(j) => {
                &&& r == Result::<(), InsertError>::Err(
                    if events@.map_values(|e: Event| e@)[j].nft_canister_id != old(
                        ledger,
                    ).nft_canister_id@ {
                        InsertError::WrongCanister
                    } else {
                        InsertError::UnknownOperation
                    },
                )
                &&& batch_applied(
                    old(ledger).db@,
                    final(ledger).db@,
                    events@.map_values(|e: Event| e@).take(j),
                    now,
                )
            },
        },
{
    let ghost canister = ledger.nft_canister_id@;
    let ghost evs = events@.map_values(|e: Event| e@);
    let ghost d0 = ledger.db@;
    proof {
        lemma_first_invalid_props(canister, evs);
        assert(evs.take(0) =~= Seq::<EventView>::empty());
    }
    let n = events.len();
    let mut events = events;
    let mut i: usize = 0;
    proof {
        assert(evs.skip(0) =~= evs);
    }
    while i < n
        invariant
            0 <= i <= n,
            n == evs.len(),
            events@.map_values(|e: Event| e@) == evs.skip(i as int),
            ledger.nft_canister_id@ == canister,
            ledger.custodians == old(ledger).custodians,
            ledger.db.wf(),
            batch_applied(d0, ledger.db@, evs.take(i as int), now),
            forall|t: int| 0 <= t < i ==> event_valid(canister, #[trigger] evs[t]),
        decreases n - i,
    {
        let ghost mid = ledger.db@;
        let ghost before = events@;
        let event = events.remove(0);
        proof {
            assert(event == before[0]);
            assert(before.map_values(|e: Event| e@)[0] == event@);
            assert(evs.skip(i as int)[0] == evs[i as int]);
            assert(evs[i as int] == event@);
            assert(events@ == before.remove(0));
            assert(events@.map_values(|e: Event| e@) =~= evs.skip(i + 1)) by {
                assert forall|t: int| #![trigger events@[t]]
                    0 <= t < events@.len() implies events@.map_values(|e: Event| e@)[t]
                    == evs.skip(i + 1)[t] by {
                    assert(events@[t] == before[t + 1]);
                    assert(before.map_values(|e: Event| e@)[t + 1] == before[t + 1]@);
                    assert(evs.skip(i as int)[t + 1] == evs[i + 1 + t]);
                    assert(evs.skip(i + 1)[t] == evs[i + 1 + t]);
                }
            }
        }
        match insert(ledger, event, now) {
            Ok(_) => {
                proof {
                    lemma_batch_applied_snoc(
                        d0,
                        mid,
                        ledger.db@,
                        evs.take(i as int),
                        evs[i as int],
                        now,
                    );
                    assert(evs.take(i as int).push(evs[i as int]) =~= evs.take(i + 1));
                }
            },
            Err(e) => {
                proof {
                    assert(!event_valid(canister, evs[i as int]));
                    assert(first_invalid(canister, evs) == Some(i as int)) by {
                        lemma_first_invalid_props(canister, evs);
                        match first_invalid(canister, evs) {
                            None => {
                                assert(event_valid(canister, evs[i as int]));
                            },
                            Some(j) => {
                                if j < i {
                                    assert(event_valid(canister, evs[j]));
                                }
                                if j > i {
                                    assert(event_valid(canister, evs[i as int]));
                                }
                            },
                        }
                    }
                }
                return Err(e);
            },
        }
        i += 1;
    }
    proof {
        assert(evs.take(n as int) =~= evs);
        match first_invalid(canister, evs) {
            None => {},
            Some(j) => {
                assert(event_valid(canister, evs[j]));
            },
        }
    }
    Ok(())
}

} // verus!
