use crate::indexes::index_contains;
use crate::model::{
    ids_view, lemma_store_find_absent, lemma_store_find_at, lemma_store_find_push,
    lemma_store_find_update, lemma_traits_find_absent, lemma_traits_find_at,
    lemma_traits_find_push, lemma_traits_find_update, lemma_value_sets_find_absent,
    lemma_value_sets_find_at, lemma_value_sets_find_push, lemma_value_sets_find_update,
    push_trait_spec, set_with_id, store_find, store_keys, store_map, trait_sets_of, traits_find,
    traits_keys, traits_map, value_sets_find, value_sets_keys, value_sets_map, vm_sets_of,
};
use crate::types::{empty_token_view, value_eq, GenericValue, TokenData, ValueView};
use vstd::prelude::*;

verus! {

broadcast use vstd::std_specs::vec::group_vec_axioms;

/// Both levels of the Trait Filter Maps' representation carry each key once.
pub open spec fn tm_wf(s: Seq<(String, Vec<(GenericValue, Vec<String>)>)>) -> bool {
    &&& traits_keys(s).no_duplicates()
    &&& forall|i: int|
        0 <= i < s.len() ==> value_sets_keys((#[trigger] s[i]).1@).no_duplicates()
}

/// The position of an identifier's record in the primary store.
#[verifier::loop_isolation(false)]
pub fn store_index_of(db: &Vec<(String, TokenData)>, id: &String) -> (r: Option<usize>)
    requires
        store_keys(db@).no_duplicates(),
    ensures
        match r {
            Some(i) => i < db@.len() && db@[i as int].0@ == id@ && store_find(db@, id@) == Some(
                db@[i as int].1@,
            ),
            None => store_find(db@, id@) is None,
        },
{
    let mut i: usize = 0;
    while i < db.len()
        invariant
            0 <= i <= db.len(),
            forall|j: int| 0 <= j < i ==> (#[trigger] db@[j]).0@ != id@,
        decreases db.len() - i,
    {
        if db[i].0 == *id {
            proof {
                lemma_store_find_at(db@, i as int);
            }
            return Some(i);
        }
        i += 1;
    }
    proof {
        lemma_store_find_absent(db@, id@);
    }
    None
}

/// The record stored under an identifier, if the store holds one.
pub fn store_get<'a>(db: &'a Vec<(String, TokenData)>, id: &String) -> (r: Option<&'a TokenData>)
    requires
        store_keys(db@).no_duplicates(),
    ensures
        match r {
            Some(t) => store_find(db@, id@) == Some(t@),
            None => store_find(db@, id@) is None,
        },
{
    match store_index_of(db, id) {
        Some(i) => Some(&db[i].1),
        None => None,
    }
}

/// The position of an identifier's record, after creating the default record
/// on a token's first event.
pub fn store_ensure(db: &mut Vec<(String, TokenData)>, id: &String) -> (i: usize)
    requires
        store_keys(old(db)@).no_duplicates(),
    ensures
        store_keys(final(db)@).no_duplicates(),
        i < final(db)@.len(),
        final(db)@[i as int].0@ == id@,
        store_map(final(db)@) == if store_map(old(db)@).contains_key(id@) {
            store_map(old(db)@)
        } else {
            store_map(old(db)@).insert(id@, empty_token_view())
        },
        store_map(final(db)@).contains_key(id@),
        final(db)@[i as int].1@ == store_map(final(db)@)[id@],
{
    match store_index_of(db, id) {
        Some(i) => i,
        None => {
            let key = id.clone();
            let fresh = TokenData::default();
            let ghost s0 = db@;
            db.push((key, fresh));
            proof {
                let p = db@[db@.len() - 1];
                assert(db@ == s0.push(p));
                lemma_store_find_push(s0, p);
                assert(store_map(db@) =~= store_map(s0).insert(id@, empty_token_view()));
                assert(!store_keys(s0).contains(id@)) by {
                    if store_keys(s0).contains(id@) {
                        let k = choose|k: int|
                            0 <= k < store_keys(s0).len() && store_keys(s0)[k] == id@;
                        assert(s0[k].0@ == id@);
                        lemma_store_find_at(s0, k);
                    }
                }
                assert(store_keys(db@) =~= store_keys(s0).push(id@));
            }
            db.len() - 1
        },
    }
}

/// Replaces the record at a position, keeping its key.
pub fn store_put(db: &mut Vec<(String, TokenData)>, i: usize, td: TokenData)
    requires
        store_keys(old(db)@).no_duplicates(),
        i < old(db)@.len(),
    ensures
        store_keys(final(db)@) == store_keys(old(db)@),
        store_keys(final(db)@).no_duplicates(),
        final(db)@.len() == old(db)@.len(),
        final(db)@[i as int].0@ == old(db)@[i as int].0@,
        store_map(final(db)@) == store_map(old(db)@).insert(old(db)@[i as int].0@, td@),
{
    let ghost s0 = db@;
    let pair = db.remove(i);
    db.insert(i, (pair.0, td));
    proof {
        let p = db@[i as int];
        assert(p.0 == s0[i as int].0);
        assert(db@ =~= s0.update(i as int, p));
        lemma_store_find_update(s0, i as int, p);
        assert(store_map(db@) =~= store_map(s0).insert(s0[i as int].0@, td@));
        assert(store_keys(db@) =~= store_keys(s0));
    }
}

/// Inserts one identifier under one (name, value) pair of the inner filter
/// map, unless it is already filed there.
#[verifier::loop_isolation(false)]
fn push_value_entry(
    entries: &mut Vec<(GenericValue, Vec<String>)>,
    value: GenericValue,
    token_id: &String,
)
    requires
        value_sets_keys(old(entries)@).no_duplicates(),
    ensures
        value_sets_keys(final(entries)@).no_duplicates(),
        value_sets_map(final(entries)@) == value_sets_map(old(entries)@).insert(
            value@,
            set_with_id(vm_sets_of(value_sets_map(old(entries)@), value@), token_id@),
        ),
{
    let ghost e0 = entries@;
    let mut j: usize = 0;
    let mut found: Option<usize> = None;
    while j < entries.len()
        invariant
            0 <= j <= entries.len(),
            entries@ == e0,
            match found {
                Some(k) => k < e0.len() && e0[k as int].0@ == value@,
                None => forall|t: int| 0 <= t < j ==> (#[trigger] e0[t]).0@ != value@,
            },
        decreases entries.len() - j,
    {
        if value_eq(&entries[j].0, &value) {
            found = Some(j);
            break ;
        }
        j += 1;
    }
    let jdx: usize = match found {
        Some(k) => {
            proof {
                lemma_value_sets_find_at(e0, k as int);
            }
            k
        },
        None => {
            proof {
                lemma_value_sets_find_absent(e0, value@);
            }
            let fresh_ids: Vec<String> = Vec::new();
            let ghost before = entries@;
            entries.push((value, fresh_ids));
            proof {
                let p = entries@[entries@.len() - 1];
                assert(entries@ == before.push(p));
                lemma_value_sets_find_push(before, p);
                assert(ids_view(p.1@) =~= Seq::<Seq<char>>::empty());
                assert(!value_sets_keys(before).contains(value@)) by {
                    if value_sets_keys(before).contains(value@) {
                        let k = choose|k: int|
                            0 <= k < value_sets_keys(before).len() && value_sets_keys(before)[k]
                                == value@;
                        assert(before[k].0@ == value@);
                        lemma_value_sets_find_at(before, k);
                    }
                }
                assert(value_sets_keys(entries@) =~= value_sets_keys(before).push(value@));
            }
            entries.len() - 1
        },
    };
    let ghost e1 = entries@;
    let ghost sets0 = value_sets_find(e1, value@).unwrap();
    proof {
        lemma_value_sets_find_at(e1, jdx as int);
        assert(sets0 == ids_view(e1[jdx as int].1@));
    }
    let mut ve = entries.remove(jdx);
    let already = index_contains(&ve.1, token_id);
    if !already {
        ve.1.push(token_id.clone());
        proof {
            assert(ids_view(ve.1@) =~= sets0.push(token_id@));
        }
    }
    entries.insert(jdx, ve);
    proof {
        let p = entries@[jdx as int];
        assert(entries@ =~= e1.update(jdx as int, p));
        assert(p.0@ == value@);
        lemma_value_sets_find_update(e1, jdx as int, p);
        assert(value_sets_keys(entries@) =~= value_sets_keys(e1));
        let sets2 = if sets0.contains(token_id@) {
            sets0
        } else {
            sets0.push(token_id@)
        };
        assert(ids_view(p.1@) == sets2);
        assert(value_sets_map(entries@) =~= value_sets_map(e1).insert(value@, sets2));
        // relate the map after the value-level insertion to the starting map
        match found {
            Some(_) => {
                assert(e1 == e0);
                assert(value_sets_map(e1) =~= value_sets_map(e0));
                assert(value_sets_map(e0).contains_key(value@));
                assert(value_sets_map(e0)[value@] == sets0);
            },
            None => {
                assert(value_sets_map(e1) =~= value_sets_map(e0).insert(
                    value@,
                    Seq::<Seq<char>>::empty(),
                ));
                assert(!value_sets_map(e0).contains_key(value@));
                assert(sets0 =~= Seq::<Seq<char>>::empty());
                assert(value_sets_map(e1).insert(value@, sets2) =~= value_sets_map(e0).insert(
                    value@,
                    sets2,
                ));
            },
        }
    }
}

/// Files a token identifier under one (name, value) trait pair, creating the
/// per-name and per-value entries on first use; filing the same identifier
/// again changes nothing.
#[verifier::loop_isolation(false)]
pub fn push_trait(
    tm: &mut Vec<(String, Vec<(GenericValue, Vec<String>)>)>,
    name: String,
    value: GenericValue,
    token_id: &String,
)
    requires
        tm_wf(old(tm)@),
    ensures
        tm_wf(final(tm)@),
        traits_map(final(tm)@) == push_trait_spec(traits_map(old(tm)@), name@, value@, token_id@),
{
    let ghost t0 = tm@;
    let mut j: usize = 0;
    let mut found: Option<usize> = None;
    while j < tm.len()
        invariant
            0 <= j <= tm.len(),
            tm@ == t0,
            match found {
                Some(k) => k < t0.len() && t0[k as int].0@ == name@,
                None => forall|t: int| 0 <= t < j ==> (#[trigger] t0[t]).0@ != name@,
            },
        decreases tm.len() - j,
    {
        if tm[j].0 == name {
            found = Some(j);
            break ;
        }
        j += 1;
    }
    let idx: usize = match found {
        Some(k) => {
            proof {
                lemma_traits_find_at(t0, k as int);
            }
            k
        },
        None => {
            proof {
                lemma_traits_find_absent(t0, name@);
            }
            let fresh: Vec<(GenericValue, Vec<String>)> = Vec::new();
            let ghost before = tm@;
            let key = name.clone();
            tm.push((key, fresh));
            proof {
                let p = tm@[tm@.len() - 1];
                assert(tm@ == before.push(p));
                lemma_traits_find_push(before, p);
                assert(!traits_keys(before).contains(name@)) by {
                    if traits_keys(before).contains(name@) {
                        let k = choose|k: int|
                            0 <= k < traits_keys(before).len() && traits_keys(before)[k] == name@;
                        assert(before[k].0@ == name@);
                        lemma_traits_find_at(before, k);
                    }
                }
                assert(traits_keys(tm@) =~= traits_keys(before).push(name@));
                assert(value_sets_keys(p.1@) =~= Seq::<ValueView>::empty());
            }
            tm.len() - 1
        },
    };
    let ghost t1 = tm@;
    let ghost inner0 = traits_find(t1, name@).unwrap();
    proof {
        lemma_traits_find_at(t1, idx as int);
        assert(inner0 == t1[idx as int].1@);
    }
    let mut entry = tm.remove(idx);
    push_value_entry(&mut entry.1, value, token_id);
    let ghost inner1 = entry.1@;
    tm.insert(idx, entry);
    proof {
        let p = tm@[idx as int];
        assert(tm@ =~= t1.update(idx as int, p));
        assert(p.0@ == name@);
        assert(p.1@ == inner1);
        lemma_traits_find_update(t1, idx as int, p);
        assert(traits_keys(tm@) =~= traits_keys(t1));
        assert(traits_map(tm@) =~= traits_map(t1).insert(name@, value_sets_map(inner1)));
        // the inner map after the value-level insertion
        let sets = trait_sets_of(traits_map(t0), name@, value@);
        let sets2 = if sets.contains(token_id@) {
            sets
        } else {
            sets.push(token_id@)
        };
        match found {
            Some(_) => {
                assert(t1 == t0);
                assert(traits_map(t0).contains_key(name@));
                assert(traits_map(t0)[name@] == value_sets_map(inner0));
                assert(sets == if value_sets_map(inner0).contains_key(value@) {
                    value_sets_map(inner0)[value@]
                } else {
                    Seq::empty()
                });
                assert(value_sets_map(inner1) =~= value_sets_map(inner0).insert(value@, sets2));
                assert(traits_map(tm@) =~= push_trait_spec(
                    traits_map(t0),
                    name@,
                    value@,
                    token_id@,
                ));
            },
            None => {
                assert(traits_map(t1) =~= traits_map(t0).insert(
                    name@,
                    value_sets_map(inner0),
                ));
                assert(!traits_map(t0).contains_key(name@));
                assert(value_sets_map(inner0) =~= Map::<ValueView, Seq<Seq<char>>>::empty()) by {
                    assert forall|v: ValueView| !(value_sets_find(inner0, v) is Some) by {
                        lemma_value_sets_find_absent(inner0, v);
                    }
                }
                assert(sets =~= Seq::<Seq<char>>::empty());
                assert(value_sets_map(inner1) =~= value_sets_map(inner0).insert(value@, sets2));
                assert(traits_map(tm@) =~= traits_map(t0).insert(
                    name@,
                    Map::<ValueView, Seq<Seq<char>>>::empty().insert(value@, sets2),
                ));
                assert(traits_map(tm@) =~= push_trait_spec(
                    traits_map(t0),
                    name@,
                    value@,
                    token_id@,
                ));
            },
        }
        // tm_wf of the result
        assert forall|i: int|
            0 <= i < tm@.len() implies value_sets_keys((#[trigger] tm@[i]).1@).no_duplicates() by {
            if i != idx {
                assert(tm@[i] == t1[i]);
                if found is None && i < t0.len() {
                    assert(t1[i] == t0[i]);
                }
            }
        }
    }
}

} // verus!
