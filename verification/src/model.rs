use crate::types::{
    empty_token_view, spec_parse_operation, EventView, GenericValue, OfferView, Operation,
    SaleView, TokenData, TokenView, ValueView,
};
use vstd::prelude::*;

verus! {

broadcast use vstd::std_specs::vec::group_vec_axioms;

/// The token identifiers a sequence of strings stands for.
pub open spec fn ids_view(v: Seq<String>) -> Seq<Seq<char>> {
    v.map_values(|s: String| s@)
}

/// The keys of the primary store, in storage order.
pub open spec fn store_keys(s: Seq<(String, TokenData)>) -> Seq<Seq<char>> {
    s.map_values(|p: (String, TokenData)| p.0@)
}

/// The record stored under an identifier, by first match.
pub open spec fn store_find(s: Seq<(String, TokenData)>, id: Seq<char>) -> Option<TokenView>
    decreases s.len(),
{
    if s.len() == 0 {
        None
    } else if s[0].0@ == id {
        Some(s[0].1@)
    } else {
        store_find(s.skip(1), id)
    }
}

/// The primary store as a map from identifier to record.
pub open spec fn store_map(s: Seq<(String, TokenData)>) -> Map<Seq<char>, TokenView> {
    Map::new(
        |id: Seq<char>| store_find(s, id) is Some,
        |id: Seq<char>| store_find(s, id).unwrap(),
    )
}

/// The identifiers filed under one trait value, by first match.
pub open spec fn value_sets_find(s: Seq<(GenericValue, Vec<String>)>, v: ValueView) -> Option<
    Seq<Seq<char>>,
>
    decreases s.len(),
{
    if s.len() == 0 {
        None
    } else if s[0].0@ == v {
        Some(ids_view(s[0].1@))
    } else {
        value_sets_find(s.skip(1), v)
    }
}

/// One trait name's filter map: trait value to identifiers.
pub open spec fn value_sets_map(s: Seq<(GenericValue, Vec<String>)>) -> Map<
    ValueView,
    Seq<Seq<char>>,
> {
    Map::new(
        |v: ValueView| value_sets_find(s, v) is Some,
        |v: ValueView| value_sets_find(s, v).unwrap(),
    )
}

/// The per-name entry of the Trait Filter Maps, by first match.
pub open spec fn traits_find(
    s: Seq<(String, Vec<(GenericValue, Vec<String>)>)>,
    name: Seq<char>,
) -> Option<Seq<(GenericValue, Vec<String>)>>
    decreases s.len(),
{
    if s.len() == 0 {
        None
    } else if s[0].0@ == name {
        Some(s[0].1@)
    } else {
        traits_find(s.skip(1), name)
    }
}

/// The Trait Filter Maps: trait name to trait value to identifiers.
pub open spec fn traits_map(s: Seq<(String, Vec<(GenericValue, Vec<String>)>)>) -> Map<
    Seq<char>,
    Map<ValueView, Seq<Seq<char>>>,
> {
    Map::new(
        |name: Seq<char>| traits_find(s, name) is Some,
        |name: Seq<char>| value_sets_map(traits_find(s, name).unwrap()),
    )
}

/// The three metrics a value-ordered Sort Index can be keyed by.
#[derive(PartialEq, Eq, Structural, Clone, Copy, Debug)]
pub enum MetricKind {
    Listing,
    Offer,
    Sale,
}

/// A record's current value for one metric; absent values count as zero.
pub open spec fn token_metric(t: TokenView, kind: MetricKind) -> u64 {
    match kind {
        MetricKind::Listing => match t.price {
            Some(p) => p,
            None => 0,
        },
        MetricKind::Offer => match t.best_offer {
            Some(p) => p,
            None => 0,
        },
        MetricKind::Sale => match t.last_sale {
            Some(s) => s.price,
            None => 0,
        },
    }
}

/// The metric of the token an identifier names; zero when the store has no
/// record for it.
pub open spec fn metric_of(
    store: Map<Seq<char>, TokenView>,
    id: Seq<char>,
    kind: MetricKind,
) -> u64 {
    if store.contains_key(id) {
        token_metric(store[id], kind)
    } else {
        0
    }
}

/// Ascending by metric: the order every value-ordered Sort Index keeps.
pub open spec fn sorted_by_metric(
    store: Map<Seq<char>, TokenView>,
    ids: Seq<Seq<char>>,
    kind: MetricKind,
) -> bool {
    forall|i: int, j: int|
        0 <= i < j < ids.len() ==> metric_of(store, #[trigger] ids[i], kind) <= metric_of(
            store,
            #[trigger] ids[j],
            kind,
        )
}

/// The highest price among a token's open offers; zero when there are none.
pub open spec fn max_offer_price(offers: Seq<OfferView>) -> u64
    decreases offers.len(),
{
    if offers.len() == 0 {
        0
    } else {
        let rest = max_offer_price(offers.drop_last());
        if offers.last().price > rest {
            offers.last().price
        } else {
            rest
        }
    }
}

/// The cached best offer is the maximum open offer price, and absent exactly
/// when no offer is open.
pub open spec fn best_offer_ok(t: TokenView) -> bool {
    if t.offers.len() == 0 {
        t.best_offer is None
    } else {
        t.best_offer == Some(max_offer_price(t.offers))
    }
}

/// The full mathematical state of one curation index.
pub struct DbView {
    pub store: Map<Seq<char>, TokenView>,
    pub listing_price: Seq<Seq<char>>,
    pub offer_price: Seq<Seq<char>>,
    pub sale_price: Seq<Seq<char>>,
    pub last_listing: Seq<Seq<char>>,
    pub last_offer: Seq<Seq<char>>,
    pub last_sale: Seq<Seq<char>>,
    pub all_tokens: Seq<Seq<char>>,
    pub trait_maps: Map<Seq<char>, Map<ValueView, Seq<Seq<char>>>>,
}

/// The invariant every reachable index state keeps.
///
/// - Each Sort Index holds an identifier at most once.
/// - Each value-ordered Sort Index is ascending by its metric.
/// - An identifier stands in `listing_price` iff its record has a price, in
///   `offer_price` and `last_offer` iff its record has open offers, and in
///   `sale_price` and `last_sale` iff its record has a recorded sale.
/// - `all` holds exactly the identifiers the store has records for.
/// - Every record's cached best offer is the maximum of its open offers.
/// - No trait set holds an identifier twice.
pub open spec fn db_inv(d: DbView) -> bool {
    &&& d.listing_price.no_duplicates()
    &&& d.offer_price.no_duplicates()
    &&& d.sale_price.no_duplicates()
    &&& d.last_listing.no_duplicates()
    &&& d.last_offer.no_duplicates()
    &&& d.last_sale.no_duplicates()
    &&& d.all_tokens.no_duplicates()
    &&& sorted_by_metric(d.store, d.listing_price, MetricKind::Listing)
    &&& sorted_by_metric(d.store, d.offer_price, MetricKind::Offer)
    &&& sorted_by_metric(d.store, d.sale_price, MetricKind::Sale)
    &&& forall|id: Seq<char>|
        #[trigger] d.listing_price.contains(id) <==> d.store.contains_key(id) && d.store[id].price
            is Some
    &&& forall|id: Seq<char>|
        #[trigger] d.offer_price.contains(id) <==> d.store.contains_key(id) && d.store[id].offers.len()
            > 0
    &&& forall|id: Seq<char>|
        #[trigger] d.last_offer.contains(id) <==> d.store.contains_key(id)
            && d.store[id].offers.len() > 0
    &&& forall|id: Seq<char>|
        #[trigger] d.sale_price.contains(id) <==> d.store.contains_key(id) && d.store[id].last_sale
            is Some
    &&& forall|id: Seq<char>|
        #[trigger] d.last_sale.contains(id) <==> d.store.contains_key(id) && d.store[id].last_sale
            is Some
    &&& forall|id: Seq<char>| #[trigger] d.last_listing.contains(id) ==> d.store.contains_key(id)
    &&& forall|id: Seq<char>| #[trigger] d.all_tokens.contains(id) <==> d.store.contains_key(id)
    &&& forall|id: Seq<char>|
        #[trigger] d.store.contains_key(id) ==> best_offer_ok(d.store[id])
    &&& forall|name: Seq<char>, v: ValueView|
        d.trait_maps.contains_key(name) && #[trigger] d.trait_maps[name].contains_key(v)
            ==> d.trait_maps[name][v].no_duplicates()
}


pub proof fn lemma_store_find_at(s: Seq<(String, TokenData)>, i: int)
    requires
        store_keys(s).no_duplicates(),
        0 <= i < s.len(),
    ensures
        store_find(s, s[i].0@) == Some(s[i].1@),
    decreases s.len(),
{
    if i > 0 {
        assert(store_keys(s)[0] == s[0].0@);
        assert(store_keys(s)[i] == s[i].0@);
        assert(s[0].0@ != s[i].0@);
        assert(store_keys(s.skip(1)) =~= store_keys(s).skip(1));
        lemma_store_find_at(s.skip(1), i - 1);
        assert(s.skip(1)[i - 1] == s[i]);
    }
}

pub proof fn lemma_store_find_absent(s: Seq<(String, TokenData)>, id: Seq<char>)
    requires
        forall|i: int| 0 <= i < s.len() ==> (#[trigger] s[i]).0@ != id,
    ensures
        store_find(s, id) is None,
    decreases s.len(),
{
    if s.len() > 0 {
        assert(forall|i: int|
            0 <= i < s.skip(1).len() ==> (#[trigger] s.skip(1)[i]).0@ != id && s.skip(1)[i] == s[i
                + 1]);
        lemma_store_find_absent(s.skip(1), id);
    }
}

/// Replacing one entry's record, keeping its key, rewrites exactly that key's
/// binding in the store map.
pub proof fn lemma_store_find_update(s: Seq<(String, TokenData)>, i: int, p: (String, TokenData))
    requires
        0 <= i < s.len(),
        p.0@ == s[i].0@,
        store_keys(s).no_duplicates(),
    ensures
        store_keys(s.update(i, p)) =~= store_keys(s),
        forall|id: Seq<char>|
            #[trigger] store_find(s.update(i, p), id) == if id == s[i].0@ {
                Some(p.1@)
            } else {
                store_find(s, id)
            },
    decreases s.len(),
{
    assert(store_keys(s.update(i, p)) =~= store_keys(s));
    if i == 0 {
        assert(s.update(0, p)[0] == p);
        assert(s.update(0, p).skip(1) =~= s.skip(1));
        assert forall|id: Seq<char>| #[trigger] store_find(s.update(i, p), id) == if id == s[i].0@ {
            Some(p.1@)
        } else {
            store_find(s, id)
        } by {
            assert(store_find(s.update(0, p).skip(1), id) == store_find(s.skip(1), id));
        }
    } else {
        assert(store_keys(s)[0] == s[0].0@);
        assert(store_keys(s)[i] == s[i].0@);
        assert(s[0].0@ != s[i].0@);
        assert(store_keys(s.skip(1)) =~= store_keys(s).skip(1));
        assert(s.update(i, p)[0] == s[0]);
        assert(s.update(i, p).skip(1) =~= s.skip(1).update(i - 1, p));
        assert(s.skip(1)[i - 1] == s[i]);
        lemma_store_find_update(s.skip(1), i - 1, p);
        assert forall|id: Seq<char>| #[trigger] store_find(s.update(i, p), id) == if id == s[i].0@ {
            Some(p.1@)
        } else {
            store_find(s, id)
        } by {
            assert(store_find(s.update(i, p).skip(1), id) == store_find(
                s.skip(1).update(i - 1, p),
                id,
            ));
            assert(store_find(s.skip(1).update(i - 1, p), id) == if id == s.skip(1)[i - 1].0@ {
                Some(p.1@)
            } else {
                store_find(s.skip(1), id)
            });
        }
    }
}

/// Appending a fresh entry binds exactly its key in the store map.
pub proof fn lemma_store_find_push(s: Seq<(String, TokenData)>, p: (String, TokenData))
    ensures
        forall|id: Seq<char>|
            id != p.0@ ==> #[trigger] store_find(s.push(p), id) == store_find(s, id),
        store_find(s, p.0@) is None ==> store_find(s.push(p), p.0@) == Some(p.1@),
        store_keys(s.push(p)) =~= store_keys(s).push(p.0@),
    decreases s.len(),
{
    assert(store_keys(s.push(p)) =~= store_keys(s).push(p.0@));
    if s.len() == 0 {
        assert(s.push(p)[0] == p);
        assert(s.push(p).skip(1) =~= Seq::<(String, TokenData)>::empty());
        assert(s.push(p).len() == 1);
        assert forall|id: Seq<char>| id != p.0@ implies #[trigger] store_find(s.push(p), id)
            == store_find(s, id) by {
            assert(store_find(s.push(p).skip(1), id) is None);
        }
    } else {
        assert(s.push(p)[0] == s[0]);
        assert(s.push(p).skip(1) =~= s.skip(1).push(p));
        lemma_store_find_push(s.skip(1), p);
        assert forall|id: Seq<char>| id != p.0@ implies #[trigger] store_find(s.push(p), id)
            == store_find(s, id) by {
            assert(store_find(s.push(p).skip(1), id) == store_find(s.skip(1).push(p), id));
        }
        if store_find(s, p.0@) is None {
            assert(s[0].0@ != p.0@);
            assert(store_find(s.push(p).skip(1), p.0@) == store_find(s.skip(1).push(p), p.0@));
        }
    }
}

/// The set of identifiers filed under a (name, value) pair; empty when the
/// maps have no entry for it.
pub open spec fn trait_sets_of(
    tm: Map<Seq<char>, Map<ValueView, Seq<Seq<char>>>>,
    name: Seq<char>,
    v: ValueView,
) -> Seq<Seq<char>> {
    if tm.contains_key(name) && tm[name].contains_key(v) {
        tm[name][v]
    } else {
        Seq::empty()
    }
}

/// A trait set with one identifier joined, unless it is already there.
pub open spec fn set_with_id(sets: Seq<Seq<char>>, id: Seq<char>) -> Seq<Seq<char>> {
    if sets.contains(id) {
        sets
    } else {
        sets.push(id)
    }
}

/// The set one trait value maps to; empty when the map has no entry for it.
pub open spec fn vm_sets_of(vm: Map<ValueView, Seq<Seq<char>>>, v: ValueView) -> Seq<Seq<char>> {
    if vm.contains_key(v) {
        vm[v]
    } else {
        Seq::empty()
    }
}

/// One idempotent insertion into the Trait Filter Maps: the identifier joins
/// the (name, value) set unless it is already there.
pub open spec fn push_trait_spec(
    tm: Map<Seq<char>, Map<ValueView, Seq<Seq<char>>>>,
    name: Seq<char>,
    v: ValueView,
    id: Seq<char>,
) -> Map<Seq<char>, Map<ValueView, Seq<Seq<char>>>> {
    let sets2 = set_with_id(trait_sets_of(tm, name, v), id);
    let inner = if tm.contains_key(name) {
        tm[name]
    } else {
        Map::empty()
    };
    tm.insert(name, inner.insert(v, sets2))
}

/// What minting does to the Trait Filter Maps: the token identifier joins the
/// set of every (name, value) pair the mint carries, left to right.
pub open spec fn mint_traits_spec(
    tm: Map<Seq<char>, Map<ValueView, Seq<Seq<char>>>>,
    pairs: Seq<(Seq<char>, ValueView)>,
    id: Seq<char>,
) -> Map<Seq<char>, Map<ValueView, Seq<Seq<char>>>>
    decreases pairs.len(),
{
    if pairs.len() == 0 {
        tm
    } else {
        mint_traits_spec(push_trait_spec(tm, pairs[0].0, pairs[0].1, id), pairs.skip(1), id)
    }
}

pub proof fn lemma_mint_traits_take_step(
    tm: Map<Seq<char>, Map<ValueView, Seq<Seq<char>>>>,
    pairs: Seq<(Seq<char>, ValueView)>,
    id: Seq<char>,
    i: int,
)
    requires
        0 <= i < pairs.len(),
    ensures
        mint_traits_spec(tm, pairs.take(i + 1), id) == push_trait_spec(
            mint_traits_spec(tm, pairs.take(i), id),
            pairs[i].0,
            pairs[i].1,
            id,
        ),
    decreases i,
{
    if i == 0 {
        assert(pairs.take(1).len() == 1);
        assert(pairs.take(1)[0] == pairs[0]);
        assert(pairs.take(1).skip(1) =~= pairs.take(0));
        assert(pairs.take(0).len() == 0);
        assert(mint_traits_spec(tm, pairs.take(0), id) == tm);
        assert(mint_traits_spec(tm, pairs.take(1), id) == mint_traits_spec(
            push_trait_spec(tm, pairs[0].0, pairs[0].1, id),
            pairs.take(1).skip(1),
            id,
        ));
    } else {
        let stepped = push_trait_spec(tm, pairs[0].0, pairs[0].1, id);
        let t1 = pairs.take(i + 1);
        assert(t1.len() == i + 1);
        assert(t1[0] == pairs[0]);
        assert(t1.skip(1) =~= pairs.skip(1).take(i));
        assert(mint_traits_spec(tm, t1, id) == mint_traits_spec(
            stepped,
            pairs.skip(1).take(i),
            id,
        ));
        let t0 = pairs.take(i);
        assert(t0.len() == i);
        assert(t0[0] == pairs[0]);
        assert(t0.skip(1) =~= pairs.skip(1).take(i - 1));
        assert(mint_traits_spec(tm, t0, id) == mint_traits_spec(
            stepped,
            pairs.skip(1).take(i - 1),
            id,
        ));
        assert(pairs.skip(1)[i - 1] == pairs[i]);
        lemma_mint_traits_take_step(stepped, pairs.skip(1), id, i - 1);
    }
}


pub open spec fn traits_keys(s: Seq<(String, Vec<(GenericValue, Vec<String>)>)>) -> Seq<Seq<char>> {
    s.map_values(|p: (String, Vec<(GenericValue, Vec<String>)>)| p.0@)
}

pub proof fn lemma_traits_find_at(s: Seq<(String, Vec<(GenericValue, Vec<String>)>)>, i: int)
    requires
        traits_keys(s).no_duplicates(),
        0 <= i < s.len(),
    ensures
        traits_find(s, s[i].0@) == Some(s[i].1@),
    decreases s.len(),
{
    if i > 0 {
        assert(traits_keys(s)[0] == s[0].0@);
        assert(traits_keys(s)[i] == s[i].0@);
        assert(s[0].0@ != s[i].0@);
        assert(traits_keys(s.skip(1)) =~= traits_keys(s).skip(1));
        lemma_traits_find_at(s.skip(1), i - 1);
        assert(s.skip(1)[i - 1] == s[i]);
    }
}

pub proof fn lemma_traits_find_absent(s: Seq<(String, Vec<(GenericValue, Vec<String>)>)>, key: Seq<char>)
    requires
        forall|i: int| 0 <= i < s.len() ==> (#[trigger] s[i]).0@ != key,
    ensures
        traits_find(s, key) is None,
    decreases s.len(),
{
    if s.len() > 0 {
        assert(forall|i: int|
            0 <= i < s.skip(1).len() ==> (#[trigger] s.skip(1)[i]).0@ != key && s.skip(1)[i] == s[i
                + 1]);
        lemma_traits_find_absent(s.skip(1), key);
    }
}

pub proof fn lemma_traits_find_update(s: Seq<(String, Vec<(GenericValue, Vec<String>)>)>, i: int, p: (String, Vec<(GenericValue, Vec<String>)>))
    requires
        0 <= i < s.len(),
        p.0@ == s[i].0@,
        traits_keys(s).no_duplicates(),
    ensures
        traits_keys(s.update(i, p)) =~= traits_keys(s),
        forall|key: Seq<char>|
            #[trigger] traits_find(s.update(i, p), key) == if key == s[i].0@ {
                Some(p.1@)
            } else {
                traits_find(s, key)
            },
    decreases s.len(),
{
    assert(traits_keys(s.update(i, p)) =~= traits_keys(s));
    if i == 0 {
        assert(s.update(0, p)[0] == p);
        assert(s.update(0, p).skip(1) =~= s.skip(1));
        assert forall|key: Seq<char>| #[trigger] traits_find(s.update(i, p), key) == if key == s[i].0@ {
            Some(p.1@)
        } else {
            traits_find(s, key)
        } by {
            assert(traits_find(s.update(0, p).skip(1), key) == traits_find(s.skip(1), key));
        }
    } else {
        assert(traits_keys(s)[0] == s[0].0@);
        assert(traits_keys(s)[i] == s[i].0@);
        assert(s[0].0@ != s[i].0@);
        assert(traits_keys(s.skip(1)) =~= traits_keys(s).skip(1));
        assert(s.update(i, p)[0] == s[0]);
        assert(s.update(i, p).skip(1) =~= s.skip(1).update(i - 1, p));
        assert(s.skip(1)[i - 1] == s[i]);
        lemma_traits_find_update(s.skip(1), i - 1, p);
        assert forall|key: Seq<char>| #[trigger] traits_find(s.update(i, p), key) == if key == s[i].0@ {
            Some(p.1@)
        } else {
            traits_find(s, key)
        } by {
            assert(traits_find(s.update(i, p).skip(1), key) == traits_find(s.skip(1).update(i - 1, p), key));
            assert(traits_find(s.skip(1).update(i - 1, p), key) == if key == s.skip(1)[i - 1].0@ {
                Some(p.1@)
            } else {
                traits_find(s.skip(1), key)
            });
        }
    }
}

pub proof fn lemma_traits_find_push(s: Seq<(String, Vec<(GenericValue, Vec<String>)>)>, p: (String, Vec<(GenericValue, Vec<String>)>))
    ensures
        forall|key: Seq<char>|
            key != p.0@ ==> #[trigger] traits_find(s.push(p), key) == traits_find(s, key),
        traits_find(s, p.0@) is None ==> traits_find(s.push(p), p.0@) == Some(p.1@),
        traits_keys(s.push(p)) =~= traits_keys(s).push(p.0@),
    decreases s.len(),
{
    assert(traits_keys(s.push(p)) =~= traits_keys(s).push(p.0@));
    if s.len() == 0 {
        assert(s.push(p)[0] == p);
        assert(s.push(p).skip(1) =~= Seq::<(String, Vec<(GenericValue, Vec<String>)>)>::empty());
        assert(s.push(p).len() == 1);
        assert forall|key: Seq<char>| key != p.0@ implies #[trigger] traits_find(s.push(p), key)
            == traits_find(s, key) by {
            assert(traits_find(s.push(p).skip(1), key) is None);
        }
    } else {
        assert(s.push(p)[0] == s[0]);
        assert(s.push(p).skip(1) =~= s.skip(1).push(p));
        lemma_traits_find_push(s.skip(1), p);
        assert forall|key: Seq<char>| key != p.0@ implies #[trigger] traits_find(s.push(p), key)
            == traits_find(s, key) by {
            assert(traits_find(s.push(p).skip(1), key) == traits_find(s.skip(1).push(p), key));
        }
        if traits_find(s, p.0@) is None {
            assert(s[0].0@ != p.0@);
            assert(traits_find(s.push(p).skip(1), p.0@) == traits_find(s.skip(1).push(p), p.0@));
        }
    }
}

pub open spec fn value_sets_keys(s: Seq<(GenericValue, Vec<String>)>) -> Seq<ValueView> {
    s.map_values(|p: (GenericValue, Vec<String>)| p.0@)
}

pub proof fn lemma_value_sets_find_at(s: Seq<(GenericValue, Vec<String>)>, i: int)
    requires
        value_sets_keys(s).no_duplicates(),
        0 <= i < s.len(),
    ensures
        value_sets_find(s, s[i].0@) == Some(ids_view(s[i].1@)),
    decreases s.len(),
{
    if i > 0 {
        assert(value_sets_keys(s)[0] == s[0].0@);
        assert(value_sets_keys(s)[i] == s[i].0@);
        assert(s[0].0@ != s[i].0@);
        assert(value_sets_keys(s.skip(1)) =~= value_sets_keys(s).skip(1));
        lemma_value_sets_find_at(s.skip(1), i - 1);
        assert(s.skip(1)[i - 1] == s[i]);
    }
}

pub proof fn lemma_value_sets_find_absent(s: Seq<(GenericValue, Vec<String>)>, key: ValueView)
    requires
        forall|i: int| 0 <= i < s.len() ==> (#[trigger] s[i]).0@ != key,
    ensures
        value_sets_find(s, key) is None,
    decreases s.len(),
{
    if s.len() > 0 {
        assert(forall|i: int|
            0 <= i < s.skip(1).len() ==> (#[trigger] s.skip(1)[i]).0@ != key && s.skip(1)[i] == s[i
                + 1]);
        lemma_value_sets_find_absent(s.skip(1), key);
    }
}

pub proof fn lemma_value_sets_find_update(s: Seq<(GenericValue, Vec<String>)>, i: int, p: (GenericValue, Vec<String>))
    requires
        0 <= i < s.len(),
        p.0@ == s[i].0@,
        value_sets_keys(s).no_duplicates(),
    ensures
        value_sets_keys(s.update(i, p)) =~= value_sets_keys(s),
        forall|key: ValueView|
            #[trigger] value_sets_find(s.update(i, p), key) == if key == s[i].0@ {
                Some(ids_view(p.1@))
            } else {
                value_sets_find(s, key)
            },
    decreases s.len(),
{
    assert(value_sets_keys(s.update(i, p)) =~= value_sets_keys(s));
    if i == 0 {
        assert(s.update(0, p)[0] == p);
        assert(s.update(0, p).skip(1) =~= s.skip(1));
        assert forall|key: ValueView| #[trigger] value_sets_find(s.update(i, p), key) == if key == s[i].0@ {
            Some(ids_view(p.1@))
        } else {
            value_sets_find(s, key)
        } by {
            assert(value_sets_find(s.update(0, p).skip(1), key) == value_sets_find(s.skip(1), key));
        }
    } else {
        assert(value_sets_keys(s)[0] == s[0].0@);
        assert(value_sets_keys(s)[i] == s[i].0@);
        assert(s[0].0@ != s[i].0@);
        assert(value_sets_keys(s.skip(1)) =~= value_sets_keys(s).skip(1));
        assert(s.update(i, p)[0] == s[0]);
        assert(s.update(i, p).skip(1) =~= s.skip(1).update(i - 1, p));
        assert(s.skip(1)[i - 1] == s[i]);
        lemma_value_sets_find_update(s.skip(1), i - 1, p);
        assert forall|key: ValueView| #[trigger] value_sets_find(s.update(i, p), key) == if key == s[i].0@ {
            Some(ids_view(p.1@))
        } else {
            value_sets_find(s, key)
        } by {
            assert(value_sets_find(s.update(i, p).skip(1), key) == value_sets_find(s.skip(1).update(i - 1, p), key));
            assert(value_sets_find(s.skip(1).update(i - 1, p), key) == if key == s.skip(1)[i - 1].0@ {
                Some(ids_view(p.1@))
            } else {
                value_sets_find(s.skip(1), key)
            });
        }
    }
}

pub proof fn lemma_value_sets_find_push(s: Seq<(GenericValue, Vec<String>)>, p: (GenericValue, Vec<String>))
    ensures
        forall|key: ValueView|
            key != p.0@ ==> #[trigger] value_sets_find(s.push(p), key) == value_sets_find(s, key),
        value_sets_find(s, p.0@) is None ==> value_sets_find(s.push(p), p.0@) == Some(ids_view(p.1@)),
        value_sets_keys(s.push(p)) =~= value_sets_keys(s).push(p.0@),
    decreases s.len(),
{
    assert(value_sets_keys(s.push(p)) =~= value_sets_keys(s).push(p.0@));
    if s.len() == 0 {
        assert(s.push(p)[0] == p);
        assert(s.push(p).skip(1) =~= Seq::<(GenericValue, Vec<String>)>::empty());
        assert(s.push(p).len() == 1);
        assert forall|key: ValueView| key != p.0@ implies #[trigger] value_sets_find(s.push(p), key)
            == value_sets_find(s, key) by {
            assert(value_sets_find(s.push(p).skip(1), key) is None);
        }
    } else {
        assert(s.push(p)[0] == s[0]);
        assert(s.push(p).skip(1) =~= s.skip(1).push(p));
        lemma_value_sets_find_push(s.skip(1), p);
        assert forall|key: ValueView| key != p.0@ implies #[trigger] value_sets_find(s.push(p), key)
            == value_sets_find(s, key) by {
            assert(value_sets_find(s.push(p).skip(1), key) == value_sets_find(s.skip(1).push(p), key));
        }
        if value_sets_find(s, p.0@) is None {
            assert(s[0].0@ != p.0@);
            assert(value_sets_find(s.push(p).skip(1), p.0@) == value_sets_find(s.skip(1).push(p), p.0@));
        }
    }
}

/// A Sort Index with every occurrence of one identifier taken out, order kept.
pub open spec fn remove_id(ids: Seq<Seq<char>>, id: Seq<char>) -> Seq<Seq<char>>
    decreases ids.len(),
{
    if ids.len() == 0 {
        Seq::empty()
    } else if ids[0] == id {
        remove_id(ids.skip(1), id)
    } else {
        seq![ids[0]] + remove_id(ids.skip(1), id)
    }
}

pub proof fn lemma_remove_id_props(ids: Seq<Seq<char>>, id: Seq<char>)
    ensures
        !remove_id(ids, id).contains(id),
        forall|x: Seq<char>|
            x != id ==> (#[trigger] remove_id(ids, id).contains(x) <==> ids.contains(x)),
        ids.no_duplicates() ==> remove_id(ids, id).no_duplicates(),
        remove_id(ids, id).len() <= ids.len(),
        !ids.contains(id) ==> remove_id(ids, id) == ids,
    decreases ids.len(),
{
    if ids.len() == 0 {
        assert(remove_id(ids, id) =~= ids);
    } else {
        let rest = ids.skip(1);
        lemma_remove_id_props(rest, id);
        assert(forall|x: Seq<char>|
            #[trigger] rest.contains(x) ==> ids.contains(x)) by {
            assert forall|x: Seq<char>| #[trigger] rest.contains(x) implies ids.contains(x) by {
                let k = choose|k: int| 0 <= k < rest.len() && rest[k] == x;
                assert(ids[k + 1] == x);
            }
        }
        assert(forall|x: Seq<char>|
            ids.contains(x) && x != ids[0] ==> #[trigger] rest.contains(x)) by {
            assert forall|x: Seq<char>| ids.contains(x) && x != ids[0] implies #[trigger] rest.contains(
                x,
            ) by {
                let k = choose|k: int| 0 <= k < ids.len() && ids[k] == x;
                assert(rest[k - 1] == x);
            }
        }
        if ids.no_duplicates() {
            assert(rest.no_duplicates());
            if ids[0] != id {
                assert(!rest.contains(ids[0]));
                let out = seq![ids[0]] + remove_id(rest, id);
                assert forall|i: int, j: int|
                    0 <= i < j < out.len() implies out[i] != out[j] by {
                    if i == 0 {
                        assert(out[j] == remove_id(rest, id)[j - 1]);
                        assert(remove_id(rest, id).contains(out[j]));
                    } else {
                        assert(out[i] == remove_id(rest, id)[i - 1]);
                        assert(out[j] == remove_id(rest, id)[j - 1]);
                    }
                }
            }
        }
        if !ids.contains(id) {
            assert(ids[0] != id);
            assert(!rest.contains(id));
            assert(remove_id(ids, id) =~= ids) by {
                assert(remove_id(rest, id) == rest);
            }
        }
        if ids[0] != id {
            let out = seq![ids[0]] + remove_id(rest, id);
            assert forall|x: Seq<char>|
                x != id implies (#[trigger] out.contains(x) <==> ids.contains(x)) by {
                if out.contains(x) {
                    let k = choose|k: int| 0 <= k < out.len() && out[k] == x;
                    if k == 0 {
                        assert(ids[0] == x);
                    } else {
                        assert(remove_id(rest, id).contains(x));
                    }
                }
                if ids.contains(x) {
                    if x == ids[0] {
                        assert(out[0] == x);
                    } else {
                        assert(rest.contains(x));
                        assert(remove_id(rest, id).contains(x));
                        let k = choose|k: int|
                            0 <= k < remove_id(rest, id).len() && remove_id(rest, id)[k] == x;
                        assert(out[k + 1] == x);
                    }
                }
            }
            assert(!out.contains(id)) by {
                if out.contains(id) {
                    let k = choose|k: int| 0 <= k < out.len() && out[k] == id;
                    assert(k > 0);
                    assert(remove_id(rest, id).contains(id));
                }
            }
        }
    }
}

/// Under distinct identifiers, taking one out is removing its position.
pub proof fn lemma_remove_id_at(ids: Seq<Seq<char>>, id: Seq<char>, i: int)
    requires
        ids.no_duplicates(),
        0 <= i < ids.len(),
        ids[i] == id,
    ensures
        remove_id(ids, id) =~= ids.remove(i),
    decreases ids.len(),
{
    let rest = ids.skip(1);
    if i == 0 {
        assert(!rest.contains(id)) by {
            if rest.contains(id) {
                let k = choose|k: int| 0 <= k < rest.len() && rest[k] == id;
                assert(ids[k + 1] == id);
            }
        }
        lemma_remove_id_props(rest, id);
        assert(ids.remove(0) =~= rest);
    } else {
        assert(rest[i - 1] == id);
        assert(rest.no_duplicates());
        lemma_remove_id_at(rest, id, i - 1);
        assert(ids[0] != id);
        assert(remove_id(ids, id) == seq![ids[0]] + remove_id(rest, id));
        assert(seq![ids[0]] + rest.remove(i - 1) =~= ids.remove(i));
    }
}



/// The price an event carries; zero when it carries none.
pub open spec fn price_of(e: EventView) -> u64 {
    match e.price {
        Some(p) => p,
        None => 0,
    }
}

/// The buyer an event carries; the anonymous identifier when it carries none.
pub open spec fn buyer_of(e: EventView) -> Seq<u8> {
    match e.buyer {
        Some(b) => b,
        None => seq![4u8],
    }
}

/// The payment asset an event carries; the default asset when it carries none.
pub open spec fn fungible_of(e: EventView) -> Seq<u8> {
    match e.fungible_id {
        Some(f) => f,
        None => Seq::empty(),
    }
}

/// The (name, value) trait pairs a mint event carries.
pub open spec fn event_trait_pairs(e: EventView) -> Seq<(Seq<char>, ValueView)> {
    match e.traits {
        Some(ps) => ps,
        None => Seq::empty(),
    }
}

/// The open offers left once one buyer's offers are all removed.
pub open spec fn offers_without(offers: Seq<OfferView>, b: Seq<u8>) -> Seq<OfferView>
    decreases offers.len(),
{
    if offers.len() == 0 {
        Seq::empty()
    } else {
        let rest = offers_without(offers.skip(1), b);
        if offers[0].buyer == b {
            rest
        } else {
            seq![offers[0]] + rest
        }
    }
}

/// The open offers left after an offer-removing event: the event's buyer's
/// offers go; an event without a buyer removes none.
pub open spec fn offers_after_cancel(offers: Seq<OfferView>, e: EventView) -> Seq<OfferView> {
    match e.buyer {
        Some(b) => offers_without(offers, b),
        None => offers,
    }
}

/// The cached best offer a set of open offers calls for: their maximum
/// price, or absent when none are open.
pub open spec fn best_of(offers: Seq<OfferView>) -> Option<u64> {
    if offers.len() == 0 {
        None
    } else {
        Some(max_offer_price(offers))
    }
}

/// The record an event starts from: the stored one, or the default record on
/// a token's first event.
pub open spec fn base_record(store: Map<Seq<char>, TokenView>, id: Seq<char>) -> TokenView {
    if store.contains_key(id) {
        store[id]
    } else {
        empty_token_view()
    }
}

/// What one operation does to the token's own record.
pub open spec fn record_after(op: Operation, t: TokenView, e: EventView, now: u64) -> TokenView {
    match op {
        Operation::Mint => TokenView { id: e.token_id, traits: e.traits, ..t },
        Operation::MakeListing => TokenView {
            price: Some(price_of(e)),
            last_listing: Some(now),
            ..t
        },
        Operation::CancelListing => TokenView { price: None, ..t },
        Operation::MakeOffer => {
            let offers2 = t.offers.push(
                OfferView { buyer: buyer_of(e), fungible: fungible_of(e), price: price_of(e) },
            );
            TokenView { offers: offers2, best_offer: best_of(offers2), last_offer: Some(now), ..t }
        },
        Operation::CancelOffer => {
            let offers2 = offers_after_cancel(t.offers, e);
            TokenView { offers: offers2, best_offer: best_of(offers2), ..t }
        },
        Operation::DirectBuy | Operation::AcceptOffer => {
            let offers2 = offers_after_cancel(t.offers, e);
            TokenView {
                offers: offers2,
                best_offer: best_of(offers2),
                price: None,
                last_sale: Some(
                    SaleView {
                        buyer: buyer_of(e),
                        fungible: fungible_of(e),
                        price: price_of(e),
                        time: now,
                    },
                ),
                ..t
            }
        },
    }
}

/// Where a new identifier with a given metric enters a value-ordered Sort
/// Index: the first position whose element's metric is at least the new one.
pub open spec fn insertion_point(
    store: Map<Seq<char>, TokenView>,
    ids: Seq<Seq<char>>,
    kind: MetricKind,
    m: u64,
) -> int
    decreases ids.len(),
{
    if ids.len() == 0 {
        0
    } else if metric_of(store, ids[0], kind) < m {
        1 + insertion_point(store, ids.skip(1), kind, m)
    } else {
        0
    }
}

/// The insertion point is the one position with everything smaller before it
/// and nothing smaller at it.
pub proof fn lemma_insertion_point_unique(
    store: Map<Seq<char>, TokenView>,
    ids: Seq<Seq<char>>,
    kind: MetricKind,
    m: u64,
    p: int,
)
    requires
        0 <= p <= ids.len(),
        forall|j: int| 0 <= j < p ==> metric_of(store, #[trigger] ids[j], kind) < m,
        p < ids.len() ==> metric_of(store, ids[p], kind) >= m,
    ensures
        p == insertion_point(store, ids, kind, m),
    decreases ids.len(),
{
    if ids.len() > 0 {
        if metric_of(store, ids[0], kind) < m {
            assert(p > 0);
            let rest = ids.skip(1);
            assert(forall|j: int|
                0 <= j < p - 1 ==> metric_of(store, #[trigger] rest[j], kind) < m) by {
                assert(forall|j: int| 0 <= j < rest.len() ==> #[trigger] rest[j] == ids[j + 1]);
            }
            assert(p - 1 < rest.len() ==> metric_of(store, rest[p - 1], kind) >= m);
            lemma_insertion_point_unique(store, rest, kind, m, p - 1);
        } else {
            assert(p == 0) by {
                if p > 0 {
                    assert(metric_of(store, ids[0], kind) < m);
                }
            }
        }
    }
}

/// The position an identifier holds in a Sort Index: its first occurrence,
/// or the index's length when it is absent.
pub open spec fn position_of(ids: Seq<Seq<char>>, id: Seq<char>) -> int
    decreases ids.len(),
{
    if ids.len() == 0 {
        0
    } else if ids[0] == id {
        0
    } else {
        1 + position_of(ids.skip(1), id)
    }
}

pub proof fn lemma_position_of_at(ids: Seq<Seq<char>>, i: int)
    requires
        ids.no_duplicates(),
        0 <= i < ids.len(),
    ensures
        position_of(ids, ids[i]) == i,
    decreases ids.len(),
{
    if i > 0 {
        assert(ids[0] != ids[i]);
        assert(ids.skip(1).no_duplicates());
        assert(ids.skip(1)[i - 1] == ids[i]);
        lemma_position_of_at(ids.skip(1), i - 1);
    }
}

/// How one value-ordered Sort Index stands after an insert-or-reposition:
/// the identifier is a member, every other member is kept, each at most
/// once, and the whole is ascending by the metric in the new store.  An
/// identifier that was absent enters exactly at its insertion point; one
/// already present has the whole index resorted stably, so members whose
/// metrics tie keep their prior relative order.
pub open spec fn value_index_updated(
    store: Map<Seq<char>, TokenView>,
    old_idx: Seq<Seq<char>>,
    new_idx: Seq<Seq<char>>,
    id: Seq<char>,
    kind: MetricKind,
) -> bool {
    &&& new_idx.no_duplicates()
    &&& sorted_by_metric(store, new_idx, kind)
    &&& forall|x: Seq<char>| #[trigger] new_idx.contains(x) <==> (old_idx.contains(x) || x == id)
    &&& new_idx.len() == if old_idx.contains(id) {
        old_idx.len()
    } else {
        old_idx.len() + 1
    }
    &&& !old_idx.contains(id) ==> new_idx == old_idx.insert(
        insertion_point(store, old_idx, kind, metric_of(store, id, kind)),
        id,
    )
    &&& old_idx.contains(id) ==> forall|i: int, j: int|
        0 <= i < j < new_idx.len() && metric_of(store, #[trigger] new_idx[i], kind) == metric_of(
            store,
            #[trigger] new_idx[j],
            kind,
        ) ==> position_of(old_idx, new_idx[i]) < position_of(old_idx, new_idx[j])
}

/// The full effect of one applied event, per operation: how the new state's
/// store, Sort Indexes and Trait Filter Maps each relate to the old state's.
pub open spec fn event_applied(d0: DbView, d1: DbView, e: EventView, now: u64) -> bool {
    match spec_parse_operation(e.operation) {
        None => d1 == d0,
        Some(op) => {
            let id = e.token_id;
            let t1 = record_after(op, base_record(d0.store, id), e, now);
            &&& d1.store == d0.store.insert(id, t1)
            &&& d1.all_tokens == remove_id(d0.all_tokens, id).push(id)
            &&& match op {
                Operation::Mint => {
                    &&& d1.listing_price == d0.listing_price
                    &&& d1.offer_price == d0.offer_price
                    &&& d1.sale_price == d0.sale_price
                    &&& d1.last_listing == d0.last_listing
                    &&& d1.last_offer == d0.last_offer
                    &&& d1.last_sale == d0.last_sale
                    &&& d1.trait_maps == mint_traits_spec(
                        d0.trait_maps,
                        event_trait_pairs(e),
                        id,
                    )
                },
                Operation::MakeListing => {
                    &&& value_index_updated(
                        d1.store,
                        d0.listing_price,
                        d1.listing_price,
                        id,
                        MetricKind::Listing,
                    )
                    &&& d1.last_listing == remove_id(d0.last_listing, id).push(id)
                    &&& d1.offer_price == d0.offer_price
                    &&& d1.sale_price == d0.sale_price
                    &&& d1.last_offer == d0.last_offer
                    &&& d1.last_sale == d0.last_sale
                    &&& d1.trait_maps == d0.trait_maps
                },
                Operation::CancelListing => {
                    &&& d1.listing_price == remove_id(d0.listing_price, id)
                    &&& d1.last_listing == remove_id(d0.last_listing, id)
                    &&& d1.offer_price == d0.offer_price
                    &&& d1.sale_price == d0.sale_price
                    &&& d1.last_offer == d0.last_offer
                    &&& d1.last_sale == d0.last_sale
                    &&& d1.trait_maps == d0.trait_maps
                },
                Operation::MakeOffer => {
                    &&& value_index_updated(
                        d1.store,
                        d0.offer_price,
                        d1.offer_price,
                        id,
                        MetricKind::Offer,
                    )
                    &&& d1.last_offer == remove_id(d0.last_offer, id).push(id)
                    &&& d1.listing_price == d0.listing_price
                    &&& d1.sale_price == d0.sale_price
                    &&& d1.last_listing == d0.last_listing
                    &&& d1.last_sale == d0.last_sale
                    &&& d1.trait_maps == d0.trait_maps
                },
                Operation::CancelOffer => {
                    &&& if t1.offers.len() == 0 {
                        d1.offer_price == remove_id(d0.offer_price, id) && d1.last_offer
                            == remove_id(d0.last_offer, id)
                    } else {
                        value_index_updated(
                            d1.store,
                            d0.offer_price,
                            d1.offer_price,
                            id,
                            MetricKind::Offer,
                        ) && d1.last_offer == d0.last_offer
                    }
                    &&& d1.listing_price == d0.listing_price
                    &&& d1.sale_price == d0.sale_price
                    &&& d1.last_listing == d0.last_listing
                    &&& d1.last_sale == d0.last_sale
                    &&& d1.trait_maps == d0.trait_maps
                },
                Operation::DirectBuy | Operation::AcceptOffer => {
                    &&& value_index_updated(
                        d1.store,
                        d0.sale_price,
                        d1.sale_price,
                        id,
                        MetricKind::Sale,
                    )
                    &&& d1.listing_price == remove_id(d0.listing_price, id)
                    &&& d1.last_sale == remove_id(d0.last_sale, id).push(id)
                    &&& d1.last_listing == d0.last_listing
                    &&& match e.buyer {
                        Some(_) => if t1.offers.len() == 0 {
                            d1.offer_price == remove_id(d0.offer_price, id) && d1.last_offer
                                == remove_id(d0.last_offer, id)
                        } else {
                            value_index_updated(
                                d1.store,
                                d0.offer_price,
                                d1.offer_price,
                                id,
                                MetricKind::Offer,
                            ) && d1.last_offer == d0.last_offer
                        },
                        None => d1.offer_price == d0.offer_price && d1.last_offer
                            == d0.last_offer,
                    }
                    &&& d1.trait_maps == d0.trait_maps
                },
            }
        },
    }
}

/// Metrics seen through a store rewrite: an index whose members all keep
/// their metric stays sorted.
pub proof fn lemma_sorted_metric_preserved(
    store0: Map<Seq<char>, TokenView>,
    store1: Map<Seq<char>, TokenView>,
    ids: Seq<Seq<char>>,
    kind: MetricKind,
)
    requires
        sorted_by_metric(store0, ids, kind),
        forall|x: Seq<char>|
            ids.contains(x) ==> metric_of(store1, x, kind) == metric_of(store0, x, kind),
    ensures
        sorted_by_metric(store1, ids, kind),
{
    assert forall|i: int, j: int| 0 <= i < j < ids.len() implies metric_of(store1, ids[i], kind)
        <= metric_of(store1, ids[j], kind) by {
        assert(ids.contains(ids[i]));
        assert(ids.contains(ids[j]));
    }
}


/// The state a fresh index starts from: nothing stored, every index empty.
pub open spec fn empty_db_view() -> DbView {
    DbView {
        store: Map::empty(),
        listing_price: Seq::empty(),
        offer_price: Seq::empty(),
        sale_price: Seq::empty(),
        last_listing: Seq::empty(),
        last_offer: Seq::empty(),
        last_sale: Seq::empty(),
        all_tokens: Seq::empty(),
        trait_maps: Map::empty(),
    }
}


/// Taking an identifier out of a sorted Sort Index leaves it sorted.
pub proof fn lemma_remove_id_sorted(
    store: Map<Seq<char>, TokenView>,
    ids: Seq<Seq<char>>,
    id: Seq<char>,
    kind: MetricKind,
)
    requires
        sorted_by_metric(store, ids, kind),
    ensures
        sorted_by_metric(store, remove_id(ids, id), kind),
    decreases ids.len(),
{
    if ids.len() > 0 {
        let rest = ids.skip(1);
        assert(sorted_by_metric(store, rest, kind)) by {
            assert forall|i: int, j: int| 0 <= i < j < rest.len() implies metric_of(
                store,
                rest[i],
                kind,
            ) <= metric_of(store, rest[j], kind) by {
                assert(rest[i] == ids[i + 1]);
                assert(rest[j] == ids[j + 1]);
            }
        }
        lemma_remove_id_sorted(store, rest, id, kind);
        if ids[0] != id {
            lemma_remove_id_props(rest, id);
            let out = seq![ids[0]] + remove_id(rest, id);
            assert forall|i: int, j: int| 0 <= i < j < out.len() implies metric_of(
                store,
                out[i],
                kind,
            ) <= metric_of(store, out[j], kind) by {
                if i == 0 {
                    assert(out[j] == remove_id(rest, id)[j - 1]);
                    assert(remove_id(rest, id).contains(out[j]));
                    let k = choose|k: int| 0 <= k < rest.len() && rest[k] == out[j];
                    assert(ids[k + 1] == out[j]);
                    assert(metric_of(store, ids[0], kind) <= metric_of(store, ids[k + 1], kind));
                } else {
                    assert(out[i] == remove_id(rest, id)[i - 1]);
                    assert(out[j] == remove_id(rest, id)[j - 1]);
                }
            }
        }
    }
}

/// One trait filing keeps every trait set free of duplicates.
pub proof fn lemma_push_trait_distinct(
    tm: Map<Seq<char>, Map<ValueView, Seq<Seq<char>>>>,
    name: Seq<char>,
    v: ValueView,
    id: Seq<char>,
)
    requires
        forall|n: Seq<char>, w: ValueView|
            tm.contains_key(n) && #[trigger] tm[n].contains_key(w) ==> tm[n][w].no_duplicates(),
    ensures
        forall|n: Seq<char>, w: ValueView|
            push_trait_spec(tm, name, v, id).contains_key(n) && #[trigger] push_trait_spec(
                tm,
                name,
                v,
                id,
            )[n].contains_key(w) ==> push_trait_spec(tm, name, v, id)[n][w].no_duplicates(),
{
    let out = push_trait_spec(tm, name, v, id);
    let sets = trait_sets_of(tm, name, v);
    let sets2 = set_with_id(sets, id);
    assert(sets.no_duplicates());
    assert(sets2.no_duplicates()) by {
        if !sets.contains(id) {
            assert forall|i: int, j: int| 0 <= i < j < sets2.len() implies sets2[i] != sets2[j] by {
                if j == sets2.len() - 1 {
                    assert(sets.contains(sets2[i]));
                }
            }
        }
    }
    assert forall|n: Seq<char>, w: ValueView|
        out.contains_key(n) && #[trigger] out[n].contains_key(w) implies out[n][w].no_duplicates() by {
        if n == name {
            if w != v {
                if tm.contains_key(name) && tm[name].contains_key(w) {
                }
            }
        }
    }
}

/// Minting keeps every trait set free of duplicates.
pub proof fn lemma_mint_traits_distinct(
    tm: Map<Seq<char>, Map<ValueView, Seq<Seq<char>>>>,
    pairs: Seq<(Seq<char>, ValueView)>,
    id: Seq<char>,
)
    requires
        forall|n: Seq<char>, w: ValueView|
            tm.contains_key(n) && #[trigger] tm[n].contains_key(w) ==> tm[n][w].no_duplicates(),
    ensures
        forall|n: Seq<char>, w: ValueView|
            mint_traits_spec(tm, pairs, id).contains_key(n) && #[trigger] mint_traits_spec(
                tm,
                pairs,
                id,
            )[n].contains_key(w) ==> mint_traits_spec(tm, pairs, id)[n][w].no_duplicates(),
    decreases pairs.len(),
{
    if pairs.len() > 0 {
        let stepped = push_trait_spec(tm, pairs[0].0, pairs[0].1, id);
        let out = mint_traits_spec(tm, pairs, id);
        lemma_push_trait_distinct(tm, pairs[0].0, pairs[0].1, id);
        lemma_mint_traits_distinct(stepped, pairs.skip(1), id);
        assert(out == mint_traits_spec(stepped, pairs.skip(1), id));
        assert forall|n: Seq<char>, w: ValueView|
            out.contains_key(n) && #[trigger] out[n].contains_key(w) implies out[n][w].no_duplicates() by {
            assert(mint_traits_spec(stepped, pairs.skip(1), id)[n].contains_key(w));
        }
    }
}

/// The index invariant is preserved by every applied event.
#[verifier::rlimit(100)]
pub proof fn lemma_inv_after(d0: DbView, d1: DbView, e: EventView, now: u64)
    requires
        db_inv(d0),
        event_applied(d0, d1, e, now),
    ensures
        db_inv(d1),
{
    match spec_parse_operation(e.operation) {
        None => {},
        Some(op) => {
            let id = e.token_id;
            let base = base_record(d0.store, id);
            let t1 = record_after(op, base, e, now);
            let store1 = d1.store;
            assert(best_offer_ok(empty_token_view()));
            // membership facts for remove-and-push recency updates
            lemma_remove_id_props(d0.all_tokens, id);
            lemma_remove_id_props(d0.last_listing, id);
            lemma_remove_id_props(d0.last_offer, id);
            lemma_remove_id_props(d0.last_sale, id);
            lemma_remove_id_props(d0.listing_price, id);
            lemma_remove_id_props(d0.offer_price, id);
            assert(d1.all_tokens.no_duplicates()) by {
                let rem = remove_id(d0.all_tokens, id);
                assert forall|i: int, j: int|
                    0 <= i < j < d1.all_tokens.len() implies d1.all_tokens[i]
                    != d1.all_tokens[j] by {
                    if j == d1.all_tokens.len() - 1 {
                        assert(rem.contains(rem[i]));
                    }
                }
            }
            assert forall|x: Seq<char>|
                #[trigger] d1.all_tokens.contains(x) <==> store1.contains_key(x) by {
                let rem = remove_id(d0.all_tokens, id);
                assert(d1.all_tokens[d1.all_tokens.len() - 1] == id);
                if d1.all_tokens.contains(x) {
                    let k = choose|k: int|
                        0 <= k < d1.all_tokens.len() && d1.all_tokens[k] == x;
                    if k < d1.all_tokens.len() - 1 {
                        assert(rem[k] == x);
                        assert(rem.contains(x));
                    }
                }
                if x != id && store1.contains_key(x) {
                    assert(d0.all_tokens.contains(x));
                    assert(rem.contains(x));
                    let k = choose|k: int| 0 <= k < rem.len() && rem[k] == x;
                    assert(d1.all_tokens[k] == x);
                }
            }
            // record fields untouched by each operation keep their metrics
            let keep_listing = (op matches Operation::Mint) || (op
                matches Operation::MakeOffer) || (op matches Operation::CancelOffer);
            let keep_offer = (op matches Operation::Mint) || (op matches Operation::MakeListing)
                || (op matches Operation::CancelListing);
            let keep_sale = !((op matches Operation::DirectBuy) || (op
                matches Operation::AcceptOffer));
            assert(keep_listing ==> token_metric(t1, MetricKind::Listing) == token_metric(
                base,
                MetricKind::Listing,
            ));
            assert(keep_offer ==> token_metric(t1, MetricKind::Offer) == token_metric(
                base,
                MetricKind::Offer,
            ));
            assert(keep_sale ==> token_metric(t1, MetricKind::Sale) == token_metric(
                base,
                MetricKind::Sale,
            ));
            // a value index whose members keep their metrics stays sorted
            assert forall|kind: MetricKind, ids: Seq<Seq<char>>|
                sorted_by_metric(d0.store, ids, kind) && (forall|x: Seq<char>|
                    ids.contains(x) ==> d0.store.contains_key(x)) && (!ids.contains(id)
                    || token_metric(t1, kind) == token_metric(base, kind)
                    || !d0.store.contains_key(id)) implies #[trigger] sorted_by_metric(
                store1,
                ids,
                kind,
            ) by {
                lemma_sorted_metric_preserved(d0.store, store1, ids, kind);
            }
            match op {
                Operation::Mint => {
                    assert(sorted_by_metric(store1, d1.listing_price, MetricKind::Listing));
                    assert(sorted_by_metric(store1, d1.offer_price, MetricKind::Offer));
                    assert(sorted_by_metric(store1, d1.sale_price, MetricKind::Sale));
                    assert forall|x: Seq<char>|
                        #[trigger] d1.listing_price.contains(x) <==> store1.contains_key(x)
                            && store1[x].price is Some by {}
                    assert forall|x: Seq<char>|
                        #[trigger] d1.offer_price.contains(x) <==> store1.contains_key(x)
                            && store1[x].offers.len() > 0 by {}
                    assert forall|x: Seq<char>|
                        #[trigger] d1.last_offer.contains(x) <==> store1.contains_key(x)
                            && store1[x].offers.len() > 0 by {}
                    assert forall|x: Seq<char>|
                        #[trigger] d1.sale_price.contains(x) <==> store1.contains_key(x)
                            && store1[x].last_sale is Some by {}
                    assert forall|x: Seq<char>|
                        #[trigger] d1.last_sale.contains(x) <==> store1.contains_key(x)
                            && store1[x].last_sale is Some by {}
                    lemma_mint_traits_distinct(d0.trait_maps, event_trait_pairs(e), id);
                },
                Operation::MakeListing => {
                    assert(sorted_by_metric(store1, d1.offer_price, MetricKind::Offer));
                    assert(sorted_by_metric(store1, d1.sale_price, MetricKind::Sale));
                    assert(t1.price is Some);
                    assert forall|x: Seq<char>|
                        #[trigger] d1.listing_price.contains(x) <==> store1.contains_key(x)
                            && store1[x].price is Some by {}
                    assert forall|x: Seq<char>|
                        #[trigger] d1.offer_price.contains(x) <==> store1.contains_key(x)
                            && store1[x].offers.len() > 0 by {}
                    assert forall|x: Seq<char>|
                        #[trigger] d1.last_offer.contains(x) <==> store1.contains_key(x)
                            && store1[x].offers.len() > 0 by {}
                    assert forall|x: Seq<char>|
                        #[trigger] d1.sale_price.contains(x) <==> store1.contains_key(x)
                            && store1[x].last_sale is Some by {}
                    assert forall|x: Seq<char>|
                        #[trigger] d1.last_sale.contains(x) <==> store1.contains_key(x)
                            && store1[x].last_sale is Some by {}
                    assert(d1.last_listing.no_duplicates()) by {
                        let rem = remove_id(d0.last_listing, id);
                        assert forall|i: int, j: int|
                            0 <= i < j < d1.last_listing.len() implies d1.last_listing[i]
                            != d1.last_listing[j] by {
                            if j == d1.last_listing.len() - 1 {
                                assert(rem.contains(rem[i]));
                            }
                        }
                    }
                    assert forall|x: Seq<char>|
                        #[trigger] d1.last_listing.contains(x) implies store1.contains_key(x) by {
                        let rem = remove_id(d0.last_listing, id);
                        assert(d1.last_listing[d1.last_listing.len() - 1] == id);
                        if x != id {
                            let k = choose|k: int|
                                0 <= k < d1.last_listing.len() && d1.last_listing[k] == x;
                            assert(k < d1.last_listing.len() - 1);
                            assert(rem[k] == x);
                            assert(rem.contains(x));
                        }
                    }
                },
                Operation::CancelListing => {
                    lemma_remove_id_sorted(d0.store, d0.listing_price, id, MetricKind::Listing);
                    assert(sorted_by_metric(store1, d1.listing_price, MetricKind::Listing)) by {
                        lemma_sorted_metric_preserved(
                            d0.store,
                            store1,
                            d1.listing_price,
                            MetricKind::Listing,
                        );
                    }
                    assert(sorted_by_metric(store1, d1.offer_price, MetricKind::Offer));
                    assert(sorted_by_metric(store1, d1.sale_price, MetricKind::Sale));
                    assert(t1.price is None);
                    assert forall|x: Seq<char>|
                        #[trigger] d1.listing_price.contains(x) <==> store1.contains_key(x)
                            && store1[x].price is Some by {}
                    assert forall|x: Seq<char>|
                        #[trigger] d1.offer_price.contains(x) <==> store1.contains_key(x)
                            && store1[x].offers.len() > 0 by {}
                    assert forall|x: Seq<char>|
                        #[trigger] d1.last_offer.contains(x) <==> store1.contains_key(x)
                            && store1[x].offers.len() > 0 by {}
                    assert forall|x: Seq<char>|
                        #[trigger] d1.sale_price.contains(x) <==> store1.contains_key(x)
                            && store1[x].last_sale is Some by {}
                    assert forall|x: Seq<char>|
                        #[trigger] d1.last_sale.contains(x) <==> store1.contains_key(x)
                            && store1[x].last_sale is Some by {}
                    assert forall|x: Seq<char>|
                        #[trigger] d1.last_listing.contains(x) implies store1.contains_key(x) by {}
                },
                Operation::MakeOffer => {
                    assert(sorted_by_metric(store1, d1.listing_price, MetricKind::Listing));
                    assert(sorted_by_metric(store1, d1.sale_price, MetricKind::Sale));
                    assert(t1.offers.len() > 0);
                    assert forall|x: Seq<char>|
                        #[trigger] d1.listing_price.contains(x) <==> store1.contains_key(x)
                            && store1[x].price is Some by {}
                    assert forall|x: Seq<char>|
                        #[trigger] d1.offer_price.contains(x) <==> store1.contains_key(x)
                            && store1[x].offers.len() > 0 by {}
                    assert forall|x: Seq<char>|
                        #[trigger] d1.sale_price.contains(x) <==> store1.contains_key(x)
                            && store1[x].last_sale is Some by {}
                    assert forall|x: Seq<char>|
                        #[trigger] d1.last_sale.contains(x) <==> store1.contains_key(x)
                            && store1[x].last_sale is Some by {}
                    assert(d1.last_offer.no_duplicates()) by {
                        let rem = remove_id(d0.last_offer, id);
                        assert forall|i: int, j: int|
                            0 <= i < j < d1.last_offer.len() implies d1.last_offer[i]
                            != d1.last_offer[j] by {
                            if j == d1.last_offer.len() - 1 {
                                assert(rem.contains(rem[i]));
                            }
                        }
                    }
                    assert forall|x: Seq<char>|
                        #[trigger] d1.last_offer.contains(x) <==> store1.contains_key(x)
                            && store1[x].offers.len() > 0 by {
                        let rem = remove_id(d0.last_offer, id);
                        assert(d1.last_offer[d1.last_offer.len() - 1] == id);
                        if x != id {
                            if d1.last_offer.contains(x) {
                                let k = choose|k: int|
                                    0 <= k < d1.last_offer.len() && d1.last_offer[k] == x;
                                assert(k < d1.last_offer.len() - 1);
                                assert(rem[k] == x);
                                assert(rem.contains(x));
                            }
                            if store1.contains_key(x) && store1[x].offers.len() > 0 {
                                assert(d0.last_offer.contains(x));
                                assert(rem.contains(x));
                                let k = choose|k: int| 0 <= k < rem.len() && rem[k] == x;
                                assert(d1.last_offer[k] == x);
                            }
                        }
                    }
                },
                Operation::CancelOffer => {
                    assert(sorted_by_metric(store1, d1.listing_price, MetricKind::Listing));
                    assert(sorted_by_metric(store1, d1.sale_price, MetricKind::Sale));
                    if t1.offers.len() == 0 {
                        lemma_remove_id_sorted(d0.store, d0.offer_price, id, MetricKind::Offer);
                        assert(sorted_by_metric(store1, d1.offer_price, MetricKind::Offer)) by {
                            lemma_sorted_metric_preserved(
                                d0.store,
                                store1,
                                d1.offer_price,
                                MetricKind::Offer,
                            );
                        }
                    }
                    assert forall|x: Seq<char>|
                        #[trigger] d1.listing_price.contains(x) <==> store1.contains_key(x)
                            && store1[x].price is Some by {}
                    assert forall|x: Seq<char>|
                        #[trigger] d1.offer_price.contains(x) <==> store1.contains_key(x)
                            && store1[x].offers.len() > 0 by {}
                    assert forall|x: Seq<char>|
                        #[trigger] d1.last_offer.contains(x) <==> store1.contains_key(x)
                            && store1[x].offers.len() > 0 by {}
                    assert forall|x: Seq<char>|
                        #[trigger] d1.sale_price.contains(x) <==> store1.contains_key(x)
                            && store1[x].last_sale is Some by {}
                    assert forall|x: Seq<char>|
                        #[trigger] d1.last_sale.contains(x) <==> store1.contains_key(x)
                            && store1[x].last_sale is Some by {}
                    assert forall|x: Seq<char>|
                        #[trigger] d1.last_listing.contains(x) implies store1.contains_key(x) by {}
                },
                Operation::DirectBuy | Operation::AcceptOffer => {
                    lemma_remove_id_sorted(d0.store, d0.listing_price, id, MetricKind::Listing);
                    assert(sorted_by_metric(store1, d1.listing_price, MetricKind::Listing)) by {
                        lemma_sorted_metric_preserved(
                            d0.store,
                            store1,
                            d1.listing_price,
                            MetricKind::Listing,
                        );
                    }
                    match e.buyer {
                        Some(_) => {
                            if t1.offers.len() == 0 {
                                lemma_remove_id_sorted(
                                    d0.store,
                                    d0.offer_price,
                                    id,
                                    MetricKind::Offer,
                                );
                                assert(sorted_by_metric(
                                    store1,
                                    d1.offer_price,
                                    MetricKind::Offer,
                                )) by {
                                    lemma_sorted_metric_preserved(
                                        d0.store,
                                        store1,
                                        d1.offer_price,
                                        MetricKind::Offer,
                                    );
                                }
                            }
                        },
                        None => {
                            assert(t1.offers == base.offers && t1.best_offer == base.best_offer);
                            assert(sorted_by_metric(store1, d1.offer_price, MetricKind::Offer));
                        },
                    }
                    assert(t1.price is None);
                    assert(t1.last_sale is Some);
                    assert forall|x: Seq<char>|
                        #[trigger] d1.listing_price.contains(x) <==> store1.contains_key(x)
                            && store1[x].price is Some by {}
                    assert forall|x: Seq<char>|
                        #[trigger] d1.offer_price.contains(x) <==> store1.contains_key(x)
                            && store1[x].offers.len() > 0 by {}
                    assert forall|x: Seq<char>|
                        #[trigger] d1.last_offer.contains(x) <==> store1.contains_key(x)
                            && store1[x].offers.len() > 0 by {}
                    assert(d1.last_sale.no_duplicates()) by {
                        let rem = remove_id(d0.last_sale, id);
                        assert forall|i: int, j: int|
                            0 <= i < j < d1.last_sale.len() implies d1.last_sale[i]
                            != d1.last_sale[j] by {
                            if j == d1.last_sale.len() - 1 {
                                assert(rem.contains(rem[i]));
                            }
                        }
                    }
                    assert forall|x: Seq<char>|
                        #[trigger] d1.last_sale.contains(x) <==> store1.contains_key(x)
                            && store1[x].last_sale is Some by {
                        let rem = remove_id(d0.last_sale, id);
                        assert(d1.last_sale[d1.last_sale.len() - 1] == id);
                        if x != id {
                            if d1.last_sale.contains(x) {
                                let k = choose|k: int|
                                    0 <= k < d1.last_sale.len() && d1.last_sale[k] == x;
                                assert(k < d1.last_sale.len() - 1);
                                assert(rem[k] == x);
                                assert(rem.contains(x));
                            }
                            if store1.contains_key(x) && store1[x].last_sale is Some {
                                assert(d0.last_sale.contains(x));
                                assert(rem.contains(x));
                                let k = choose|k: int| 0 <= k < rem.len() && rem[k] == x;
                                assert(d1.last_sale[k] == x);
                            }
                        }
                    }
                    assert forall|x: Seq<char>|
                        #[trigger] d1.sale_price.contains(x) <==> store1.contains_key(x)
                            && store1[x].last_sale is Some by {}
                    assert forall|x: Seq<char>|
                        #[trigger] d1.last_listing.contains(x) implies store1.contains_key(x) by {}
                },
            }
            assert forall|x: Seq<char>|
                #[trigger] store1.contains_key(x) implies best_offer_ok(store1[x]) by {}
        },
    }
}


/// An event a ledger instance accepts: it names the curated collection and
/// one of the seven operations.
pub open spec fn event_valid(canister: Seq<u8>, e: EventView) -> bool {
    e.nft_canister_id == canister && spec_parse_operation(e.operation) is Some
}

/// The position of the first event of a batch that the instance rejects.
pub open spec fn first_invalid(canister: Seq<u8>, events: Seq<EventView>) -> Option<int>
    decreases events.len(),
{
    if events.len() == 0 {
        None
    } else if !event_valid(canister, events[0]) {
        Some(0int)
    } else {
        match first_invalid(canister, events.skip(1)) {
            Some(j) => Some(j + 1),
            None => None,
        }
    }
}

/// A whole batch applied in order, each event from the state the one before
/// it produced.
pub open spec fn batch_applied(d0: DbView, d1: DbView, events: Seq<EventView>, now: u64) -> bool
    decreases events.len(),
{
    if events.len() == 0 {
        d1 == d0
    } else {
        exists|mid: DbView|
            #[trigger] event_applied(d0, mid, events[0], now) && batch_applied(
                mid,
                d1,
                events.skip(1),
                now,
            )
    }
}

/// A batch grows one applied event at a time.
pub proof fn lemma_batch_applied_snoc(
    d0: DbView,
    mid: DbView,
    d1: DbView,
    events: Seq<EventView>,
    e: EventView,
    now: u64,
)
    requires
        batch_applied(d0, mid, events, now),
        event_applied(mid, d1, e, now),
    ensures
        batch_applied(d0, d1, events.push(e), now),
    decreases events.len(),
{
    if events.len() == 0 {
        assert(events.push(e)[0] == e);
        assert(events.push(e).skip(1) =~= Seq::<EventView>::empty());
        assert(batch_applied(d1, d1, events.push(e).skip(1), now));
        assert(event_applied(d0, d1, events.push(e)[0], now) && batch_applied(
            d1,
            d1,
            events.push(e).skip(1),
            now,
        ));
    } else {
        let m0 = choose|m0: DbView|
            #[trigger] event_applied(d0, m0, events[0], now) && batch_applied(
                m0,
                mid,
                events.skip(1),
                now,
            );
        lemma_batch_applied_snoc(m0, mid, d1, events.skip(1), e, now);
        assert(events.push(e)[0] == events[0]);
        assert(events.push(e).skip(1) =~= events.skip(1).push(e));
        assert(event_applied(d0, m0, events.push(e)[0], now) && batch_applied(
            m0,
            d1,
            events.push(e).skip(1),
            now,
        ));
    }
}

/// Where the first invalid event stands, every earlier one is valid.
pub proof fn lemma_first_invalid_props(canister: Seq<u8>, events: Seq<EventView>)
    ensures
        match first_invalid(canister, events) {
            None => forall|i: int|
                0 <= i < events.len() ==> event_valid(canister, #[trigger] events[i]),
            Some(j) => 0 <= j < events.len() && !event_valid(canister, events[j]) && forall|i: int|
                0 <= i < j ==> event_valid(canister, #[trigger] events[i]),
        },
    decreases events.len(),
{
    if events.len() > 0 && event_valid(canister, events[0]) {
        lemma_first_invalid_props(canister, events.skip(1));
        match first_invalid(canister, events.skip(1)) {
            None => {
                assert forall|i: int|
                    0 <= i < events.len() implies event_valid(canister, #[trigger] events[i]) by {
                    if i > 0 {
                        assert(events.skip(1)[i - 1] == events[i]);
                        assert(event_valid(canister, events.skip(1)[i - 1]));
                    }
                }
            },
            Some(j) => {
                assert(events.skip(1)[j] == events[j + 1]);
                assert forall|i: int|
                    0 <= i < j + 1 implies event_valid(canister, #[trigger] events[i]) by {
                    if i > 0 {
                        assert(events.skip(1)[i - 1] == events[i]);
                        assert(event_valid(canister, events.skip(1)[i - 1]));
                    }
                }
            },
        }
    }
}


/// Two stores whose entries agree view-by-view are the same store.
pub proof fn lemma_store_find_congruent(a: Seq<(String, TokenData)>, b: Seq<(String, TokenData)>)
    requires
        a.len() == b.len(),
        forall|i: int|
            0 <= i < a.len() ==> (#[trigger] a[i]).0@ == (#[trigger] b[i]).0@ && a[i].1@
                == b[i].1@,
    ensures
        forall|id: Seq<char>| #[trigger] store_find(a, id) == store_find(b, id),
        store_keys(a) == store_keys(b),
    decreases a.len(),
{
    assert(store_keys(a) =~= store_keys(b));
    if a.len() > 0 {
        assert(forall|i: int|
            0 <= i < a.skip(1).len() ==> #[trigger] a.skip(1)[i] == a[i + 1] && #[trigger] b.skip(
                1,
            )[i] == b[i + 1]);
        lemma_store_find_congruent(a.skip(1), b.skip(1));
        assert forall|id: Seq<char>| #[trigger] store_find(a, id) == store_find(b, id) by {
            assert(store_find(a.skip(1), id) == store_find(b.skip(1), id));
        }
    }
}

/// Two per-name filter maps whose entries agree view-by-view are the same.
pub proof fn lemma_value_sets_congruent(
    a: Seq<(GenericValue, Vec<String>)>,
    b: Seq<(GenericValue, Vec<String>)>,
)
    requires
        a.len() == b.len(),
        forall|i: int|
            0 <= i < a.len() ==> (#[trigger] a[i]).0@ == (#[trigger] b[i]).0@ && ids_view(
                a[i].1@,
            ) == ids_view(b[i].1@),
    ensures
        forall|v: ValueView| #[trigger] value_sets_find(a, v) == value_sets_find(b, v),
        value_sets_keys(a) == value_sets_keys(b),
        value_sets_map(a) == value_sets_map(b),
    decreases a.len(),
{
    assert(value_sets_keys(a) =~= value_sets_keys(b));
    if a.len() > 0 {
        assert(forall|i: int|
            0 <= i < a.skip(1).len() ==> #[trigger] a.skip(1)[i] == a[i + 1] && #[trigger] b.skip(
                1,
            )[i] == b[i + 1]);
        lemma_value_sets_congruent(a.skip(1), b.skip(1));
        assert forall|v: ValueView| #[trigger] value_sets_find(a, v) == value_sets_find(b, v) by {
            assert(value_sets_find(a.skip(1), v) == value_sets_find(b.skip(1), v));
        }
    }
    assert(value_sets_map(a) =~= value_sets_map(b));
}

/// Two Trait Filter Maps whose entries agree view-by-view are the same.
pub proof fn lemma_traits_congruent(
    a: Seq<(String, Vec<(GenericValue, Vec<String>)>)>,
    b: Seq<(String, Vec<(GenericValue, Vec<String>)>)>,
)
    requires
        a.len() == b.len(),
        forall|i: int|
            0 <= i < a.len() ==> (#[trigger] a[i]).0@ == (#[trigger] b[i]).0@ && value_sets_map(
                a[i].1@,
            ) == value_sets_map(b[i].1@),
    ensures
        traits_keys(a) == traits_keys(b),
        traits_map(a) == traits_map(b),
    decreases a.len(),
{
    assert(traits_keys(a) =~= traits_keys(b));
    if a.len() > 0 {
        assert(forall|i: int|
            0 <= i < a.skip(1).len() ==> #[trigger] a.skip(1)[i] == a[i + 1] && #[trigger] b.skip(
                1,
            )[i] == b[i + 1]);
        lemma_traits_congruent(a.skip(1), b.skip(1));
        assert forall|n: Seq<char>|
            #[trigger] traits_map(a).contains_key(n) == traits_map(b).contains_key(n)
                && (traits_map(a).contains_key(n) ==> traits_map(a)[n] == traits_map(b)[n]) by {
            assert(traits_map(a.skip(1)) == traits_map(b.skip(1)));
            if n == a[0].0@ {
            } else {
                assert(traits_find(a, n) == traits_find(a.skip(1), n));
                assert(traits_find(b, n) == traits_find(b.skip(1), n));
                if traits_map(a.skip(1)).contains_key(n) {
                    assert(traits_map(a.skip(1))[n] == traits_map(b.skip(1))[n]);
                }
            }
        }
    }
    assert(traits_map(a) =~= traits_map(b));
}

} // verus!
