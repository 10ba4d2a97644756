use crate::model::{
    ids_view, insertion_point, lemma_insertion_point_unique, lemma_remove_id_at,
    lemma_remove_id_props, metric_of, remove_id, sorted_by_metric, store_keys, store_map,
    token_metric, value_index_updated, MetricKind,
};
use crate::types::TokenData;
use vstd::prelude::*;

verus! {

broadcast use vstd::std_specs::vec::group_vec_axioms;

/// Whether a Sort Index holds an identifier.
pub fn index_contains(v: &Vec<String>, id: &String) -> (r: bool)
    ensures
        r == ids_view(v@).contains(id@),
{
    let mut i: usize = 0;
    while i < v.len()
        invariant
            0 <= i <= v.len(),
            forall|j: int| 0 <= j < i ==> ids_view(v@)[j] != id@,
        decreases v.len() - i,
    {
        if v[i] == *id {
            proof {
                assert(ids_view(v@)[i as int] == id@);
            }
            return true;
        }
        i += 1;
    }
    false
}

/// Takes an identifier out of a Sort Index, wherever it stands.
#[verifier::loop_isolation(false)]
pub fn index_remove(v: &mut Vec<String>, id: &String)
    requires
        ids_view(old(v)@).no_duplicates(),
    ensures
        ids_view(final(v)@) == remove_id(ids_view(old(v)@), id@),
{
    let ghost old_ids = ids_view(v@);
    let mut i: usize = 0;
    while i < v.len()
        invariant
            0 <= i <= v.len(),
            v@ == old(v)@,
            forall|j: int| 0 <= j < i ==> ids_view(v@)[j] != id@,
        decreases v.len() - i,
    {
        if v[i] == *id {
            proof {
                assert(ids_view(v@)[i as int] == id@);
            }
            v.remove(i);
            proof {
                lemma_remove_id_at(old_ids, id@, i as int);
                assert(ids_view(v@) =~= old_ids.remove(i as int));
            }
            return ;
        }
        i += 1;
    }
    proof {
        assert(!old_ids.contains(id@)) by {
            if old_ids.contains(id@) {
                let k = choose|k: int| 0 <= k < old_ids.len() && old_ids[k] == id@;
            }
        }
        lemma_remove_id_props(old_ids, id@);
    }
}

/// Moves an identifier to the tail of a recency-ordered Sort Index: out of
/// wherever it stands, then appended as the most recently affected.
pub fn move_to_tail(v: &mut Vec<String>, id: String)
    requires
        ids_view(old(v)@).no_duplicates(),
    ensures
        ids_view(final(v)@) == remove_id(ids_view(old(v)@), id@).push(id@),
        ids_view(final(v)@).no_duplicates(),
{
    index_remove(v, &id);
    let ghost removed = ids_view(v@);
    v.push(id);
    proof {
        assert(ids_view(v@) =~= removed.push(id@));
        lemma_remove_id_props(ids_view(old(v)@), id@);
        assert forall|i: int, j: int|
            0 <= i < j < ids_view(v@).len() implies ids_view(v@)[i] != ids_view(v@)[j] by {
            if j == ids_view(v@).len() - 1 {
                assert(removed.contains(ids_view(v@)[i]));
            }
        }
    }
}


/// A record's current value for one metric, absent values counting as zero.
pub fn token_metric_exec(t: &TokenData, kind: MetricKind) -> (m: u64)
    ensures
        m == token_metric(t@, kind),
{
    match kind {
        MetricKind::Listing => match t.price {
            Some(p) => p,
            None => 0,
        },
        MetricKind::Offer => match t.best_offer {
            Some(p) => p,
            None => 0,
        },
        MetricKind::Sale => match &t.last_sale {
            Some(s) => s.price,
            None => 0,
        },
    }
}

/// The metric of the token an identifier names, looked up in the store.
#[verifier::loop_isolation(false)]
pub fn metric_lookup(store: &Vec<(String, TokenData)>, id: &String, kind: MetricKind) -> (m: u64)
    requires
        store_keys(store@).no_duplicates(),
    ensures
        m == metric_of(store_map(store@), id@, kind),
{
    let mut i: usize = 0;
    while i < store.len()
        invariant
            0 <= i <= store.len(),
            forall|j: int| 0 <= j < i ==> (#[trigger] store@[j]).0@ != id@,
        decreases store.len() - i,
    {
        if store[i].0 == *id {
            proof {
                crate::model::lemma_store_find_at(store@, i as int);
            }
            return token_metric_exec(&store[i].1, kind);
        }
        i += 1;
    }
    proof {
        crate::model::lemma_store_find_absent(store@, id@);
    }
    0
}

/// Inserts an absent identifier into a value-ordered Sort Index at its
/// insertion point, found by binary search.
#[verifier::rlimit(60)]
#[verifier::loop_isolation(false)]
pub fn insert_sorted(
    v: &mut Vec<String>,
    store: &Vec<(String, TokenData)>,
    id: String,
    kind: MetricKind,
)
    requires
        store_keys(store@).no_duplicates(),
        ids_view(old(v)@).no_duplicates(),
        !ids_view(old(v)@).contains(id@),
        sorted_by_metric(store_map(store@), ids_view(old(v)@), kind),
    ensures
        ids_view(final(v)@) == ids_view(old(v)@).insert(
            insertion_point(
                store_map(store@),
                ids_view(old(v)@),
                kind,
                metric_of(store_map(store@), id@, kind),
            ),
            id@,
        ),
        ids_view(final(v)@).no_duplicates(),
        sorted_by_metric(store_map(store@), ids_view(final(v)@), kind),
        forall|x: Seq<char>|
            #[trigger] ids_view(final(v)@).contains(x) <==> (ids_view(old(v)@).contains(x) || x
                == id@),
        ids_view(final(v)@).len() == ids_view(old(v)@).len() + 1,
{
    let ghost old_ids = ids_view(v@);
    let ghost smap = store_map(store@);
    let m = metric_lookup(store, &id, kind);
    let mut lo: usize = 0;
    let mut hi: usize = v.len();
    while lo < hi
        invariant
            0 <= lo <= hi <= v.len(),
            forall|j: int| 0 <= j < lo ==> metric_of(smap, #[trigger] old_ids[j], kind) < m,
            forall|j: int|
                hi <= j < old_ids.len() ==> metric_of(smap, #[trigger] old_ids[j], kind) >= m,
        decreases hi - lo,
    {
        let mid = lo + (hi - lo) / 2;
        let mm = metric_lookup(store, &v[mid], kind);
        proof {
            assert(old_ids[mid as int] == v@[mid as int]@);
        }
        if mm < m {
            proof {
                assert forall|j: int| 0 <= j < mid + 1 implies metric_of(
                    smap,
                    #[trigger] old_ids[j],
                    kind,
                ) < m by {
                    if j < mid {
                        assert(metric_of(smap, old_ids[j], kind) <= metric_of(
                            smap,
                            old_ids[mid as int],
                            kind,
                        ));
                    }
                }
            }
            lo = mid + 1;
        } else {
            proof {
                assert forall|j: int| mid <= j < old_ids.len() implies metric_of(
                    smap,
                    #[trigger] old_ids[j],
                    kind,
                ) >= m by {
                    if j > mid {
                        assert(metric_of(smap, old_ids[mid as int], kind) <= metric_of(
                            smap,
                            old_ids[j],
                            kind,
                        ));
                    }
                }
            }
            hi = mid;
        }
    }
    proof {
        lemma_insertion_point_unique(smap, old_ids, kind, m, lo as int);
    }
    v.insert(lo, id);
    proof {
        let new_ids = ids_view(v@);
        assert(new_ids =~= old_ids.insert(lo as int, id@));
        old_ids.insert_ensures(lo as int, id@);
        assert forall|x: Seq<char>|
            #[trigger] new_ids.contains(x) <==> (old_ids.contains(x) || x == id@) by {
            if new_ids.contains(x) {
                let k = choose|k: int| 0 <= k < new_ids.len() && new_ids[k] == x;
                if k < lo {
                    assert(old_ids[k] == x);
                } else if k > lo {
                    assert(old_ids[k - 1] == x);
                }
            }
            if old_ids.contains(x) {
                let k = choose|k: int| 0 <= k < old_ids.len() && old_ids[k] == x;
                if k < lo {
                    assert(new_ids[k] == x);
                } else {
                    assert(new_ids[k + 1] == x);
                }
            }
            if x == id@ {
                assert(new_ids[lo as int] == x);
            }
        }
        assert forall|i: int, j: int| 0 <= i < j < new_ids.len() implies new_ids[i]
            != new_ids[j] by {
            if i != lo && j != lo {
                let i0: int = if i < lo { i } else { i - 1 };
                let j0: int = if j < lo { j } else { j - 1 };
                assert(new_ids[i] == old_ids[i0] && new_ids[j] == old_ids[j0]);
            } else if i == lo {
                assert(new_ids[j] == old_ids[j - 1]);
                assert(old_ids.contains(old_ids[j - 1]));
            } else {
                assert(new_ids[i] == old_ids[i]);
                assert(old_ids.contains(old_ids[i]));
            }
        }
        assert forall|i: int, j: int| 0 <= i < j < new_ids.len() implies metric_of(
            smap,
            new_ids[i],
            kind,
        ) <= metric_of(smap, new_ids[j], kind) by {
            let mi = if i == lo {
                m
            } else if i < lo {
                metric_of(smap, old_ids[i], kind)
            } else {
                metric_of(smap, old_ids[i - 1], kind)
            };
            if i == lo {
                assert(new_ids[i] == id@);
            }
            if j == lo {
                assert(new_ids[j] == id@);
            }
        }
    }
}

/// Relies on dmsort::sort_by_key: the slice is reordered into ascending
/// order of the key, here the whole pair, whose `Ord` is lexicographic; the
/// same pairs come out that went in, only their order changes.  Keying on
/// the whole pair makes the output unique even though the sort itself is
/// unstable: the second components are the members' prior positions, which
/// are distinct.
#[verifier::external_body]
fn sort_pairs(v: &mut Vec<(u64, usize)>)
    ensures
        final(v)@.to_multiset() == old(v)@.to_multiset(),
        forall|i: int, j: int|
            0 <= i < j < final(v)@.len() ==> ((#[trigger] final(v)@[i]).0 < (
            #[trigger] final(v)@[j]).0 || (final(v)@[i].0 == final(v)@[j].0 && final(v)@[i].1
                <= final(v)@[j].1)),
{
    dmsort::sort_by_key(v, |p: &(u64, usize)| *p);
}

/// Resorts a whole value-ordered Sort Index ascending by the members'
/// current metrics, keeping exactly the members it had, stably: members
/// whose metrics tie keep their prior relative order.
#[verifier::loop_isolation(false)]
pub fn reposition(v: &mut Vec<String>, store: &Vec<(String, TokenData)>, kind: MetricKind)
    requires
        store_keys(store@).no_duplicates(),
        ids_view(old(v)@).no_duplicates(),
    ensures
        ids_view(final(v)@).no_duplicates(),
        ids_view(final(v)@).len() == ids_view(old(v)@).len(),
        forall|x: Seq<char>|
            #[trigger] ids_view(final(v)@).contains(x) <==> ids_view(old(v)@).contains(x),
        sorted_by_metric(store_map(store@), ids_view(final(v)@), kind),
        forall|i: int, j: int|
            0 <= i < j < ids_view(final(v)@).len() && metric_of(
                store_map(store@),
                #[trigger] ids_view(final(v)@)[i],
                kind,
            ) == metric_of(store_map(store@), #[trigger] ids_view(final(v)@)[j], kind)
                ==> crate::model::position_of(ids_view(old(v)@), ids_view(final(v)@)[i])
                < crate::model::position_of(ids_view(old(v)@), ids_view(final(v)@)[j]),
{
    broadcast use vstd::seq_lib::group_seq_properties;

    let ghost old_ids = ids_view(v@);
    let ghost smap = store_map(store@);
    let mut pairs: Vec<(u64, usize)> = Vec::new();
    let mut i: usize = 0;
    while i < v.len()
        invariant
            0 <= i <= v.len(),
            v@ == old(v)@,
            pairs@.len() == i,
            forall|j: int|
                0 <= j < i ==> #[trigger] pairs@[j] == (
                    metric_of(smap, old_ids[j], kind),
                    j as usize,
                ),
        decreases v.len() - i,
    {
        let m = metric_lookup(store, &v[i], kind);
        proof {
            assert(old_ids[i as int] == v@[i as int]@);
        }
        pairs.push((m, i));
        i += 1;
    }
    let ghost old_pairs = pairs@;
    proof {
        assert(old_pairs.no_duplicates());
        old_pairs.lemma_multiset_has_no_duplicates();
        old_pairs.to_multiset_ensures();
    }
    sort_pairs(&mut pairs);
    proof {
        pairs@.to_multiset_ensures();
        assert forall|k: int| 0 <= k < pairs@.len() implies (#[trigger] pairs@[k]).1
            < old_ids.len() && pairs@[k].0 == metric_of(
            smap,
            old_ids[pairs@[k].1 as int],
            kind,
        ) by {
            assert(pairs@.contains(pairs@[k]));
            assert(old_pairs.to_multiset().count(pairs@[k]) > 0);
            assert(old_pairs.contains(pairs@[k]));
            let j = choose|j: int| 0 <= j < old_pairs.len() && old_pairs[j] == pairs@[k];
            assert(old_pairs[j] == (metric_of(smap, old_ids[j], kind), j as usize));
        }
        assert(pairs@.no_duplicates()) by {
            pairs@.lemma_multiset_has_no_duplicates_conv();
        }
        assert(pairs@.len() == old_pairs.len());
    }
    let mut out: Vec<String> = Vec::new();
    let mut k: usize = 0;
    while k < pairs.len()
        invariant
            0 <= k <= pairs.len(),
            v@ == old(v)@,
            out@.len() == k,
            forall|j: int|
                0 <= j < k ==> #[trigger] ids_view(out@)[j] == old_ids[pairs@[j].1 as int],
        decreases pairs.len() - k,
    {
        let idx = pairs[k].1;
        proof {
            assert(pairs@[k as int].1 < old_ids.len());
        }
        let entry = v[idx].clone();
        let ghost prev = out@;
        out.push(entry);
        proof {
            assert(ids_view(out@) =~= ids_view(prev).push(old_ids[pairs@[k as int].1 as int]));
        }
        k += 1;
    }
    proof {
        let new_ids = ids_view(out@);
        assert(new_ids.len() == old_ids.len());
        assert forall|i1: int, j1: int| 0 <= i1 < j1 < new_ids.len() implies new_ids[i1]
            != new_ids[j1] by {
            let t1 = pairs@[i1].1 as int;
            let t2 = pairs@[j1].1 as int;
            assert(pairs@[i1].0 == metric_of(smap, old_ids[t1], kind));
            assert(pairs@[j1].0 == metric_of(smap, old_ids[t2], kind));
            if t1 == t2 {
                assert(pairs@[i1] == pairs@[j1]);
            }
        }
        assert forall|x: Seq<char>|
            #[trigger] new_ids.contains(x) <==> old_ids.contains(x) by {
            if new_ids.contains(x) {
                let k1 = choose|k1: int| 0 <= k1 < new_ids.len() && new_ids[k1] == x;
                assert(old_ids[pairs@[k1].1 as int] == x);
                assert(old_ids.contains(old_ids[pairs@[k1].1 as int]));
            }
            if old_ids.contains(x) {
                let j = choose|j: int| 0 <= j < old_ids.len() && old_ids[j] == x;
                assert(old_pairs[j] == (metric_of(smap, old_ids[j], kind), j as usize));
                assert(old_pairs.contains(old_pairs[j]));
                assert(pairs@.to_multiset().count(old_pairs[j]) > 0);
                assert(pairs@.contains(old_pairs[j]));
                let k1 = choose|k1: int| 0 <= k1 < pairs@.len() && pairs@[k1] == old_pairs[j];
                assert(new_ids[k1] == old_ids[j]);
            }
        }
        assert forall|i1: int, j1: int| 0 <= i1 < j1 < new_ids.len() implies metric_of(
            smap,
            new_ids[i1],
            kind,
        ) <= metric_of(smap, new_ids[j1], kind) by {
            assert(metric_of(smap, new_ids[i1], kind) == pairs@[i1].0);
            assert(metric_of(smap, new_ids[j1], kind) == pairs@[j1].0);
        }
        assert forall|i1: int, j1: int|
            0 <= i1 < j1 < new_ids.len() && metric_of(smap, #[trigger] new_ids[i1], kind)
                == metric_of(smap, #[trigger] new_ids[j1], kind) implies crate::model::position_of(
            old_ids,
            new_ids[i1],
        ) < crate::model::position_of(old_ids, new_ids[j1]) by {
            let t1 = pairs@[i1].1 as int;
            let t2 = pairs@[j1].1 as int;
            assert(pairs@[i1].0 == metric_of(smap, old_ids[t1], kind));
            assert(pairs@[j1].0 == metric_of(smap, old_ids[t2], kind));
            assert(new_ids[i1] == old_ids[t1]);
            assert(new_ids[j1] == old_ids[t2]);
            assert(pairs@[i1].0 == pairs@[j1].0);
            assert(pairs@[i1].1 <= pairs@[j1].1);
            if t1 == t2 {
                assert(pairs@[i1] == pairs@[j1]);
            }
            assert(t1 < t2);
            crate::model::lemma_position_of_at(old_ids, t1);
            crate::model::lemma_position_of_at(old_ids, t2);
        }
    }
    *v = out;
}


/// Insert-or-reposition: a new identifier enters a value-ordered Sort Index
/// at its insertion point; one already present has the whole index resorted
/// by the members' current metrics.
pub fn value_index_update(
    v: &mut Vec<String>,
    store: &Vec<(String, TokenData)>,
    id: &String,
    kind: MetricKind,
)
    requires
        store_keys(store@).no_duplicates(),
        ids_view(old(v)@).no_duplicates(),
        !ids_view(old(v)@).contains(id@) ==> sorted_by_metric(
            store_map(store@),
            ids_view(old(v)@),
            kind,
        ),
    ensures
        value_index_updated(
            store_map(store@),
            ids_view(old(v)@),
            ids_view(final(v)@),
            id@,
            kind,
        ),
{
    if index_contains(v, id) {
        reposition(v, store, kind);
    } else {
        insert_sorted(v, store, id.clone(), kind);
    }
}

} // verus!
