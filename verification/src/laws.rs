use crate::db::Database;
use crate::model::{
    best_offer_ok, db_inv, event_applied, max_offer_price, mint_traits_spec, push_trait_spec,
    set_with_id, sorted_by_metric, trait_sets_of, DbView, MetricKind,
};
use crate::query::spec_query;
use crate::types::{spec_parse_operation, Operation, QueryRequest, ValueView};
use vstd::prelude::*;

verus! {

/// For every stored token with open offers, the cached best offer is the
/// maximum price among them; with no open offers it is absent.
pub proof fn lemma_best_offer_cached(d: DbView, id: Seq<char>)
    requires
        db_inv(d),
        d.store.contains_key(id),
    ensures
        d.store[id].offers.len() > 0 ==> d.store[id].best_offer == Some(
            max_offer_price(d.store[id].offers),
        ),
        d.store[id].offers.len() == 0 ==> d.store[id].best_offer is None,
{
    assert(best_offer_ok(d.store[id]));
}

/// A token identifier stands in `listing_price` iff its record has a price,
/// in `offer_price` iff it has open offers, and in `sale_price` iff it has
/// ever had a sale.
pub proof fn lemma_value_index_membership(d: DbView, id: Seq<char>)
    requires
        db_inv(d),
    ensures
        d.listing_price.contains(id) <==> d.store.contains_key(id) && d.store[id].price is Some,
        d.offer_price.contains(id) <==> d.store.contains_key(id) && d.store[id].offers.len() > 0,
        d.sale_price.contains(id) <==> d.store.contains_key(id) && d.store[id].last_sale is Some,
{
}

/// Every value-ordered Sort Index is ascending by its metric.
pub proof fn lemma_value_indexes_sorted(d: DbView)
    requires
        db_inv(d),
    ensures
        sorted_by_metric(d.store, d.listing_price, MetricKind::Listing),
        sorted_by_metric(d.store, d.offer_price, MetricKind::Offer),
        sorted_by_metric(d.store, d.sale_price, MetricKind::Sale),
{
}

/// One trait filing never unfiles anyone.
proof fn lemma_push_trait_keeps_member(
    tm: Map<Seq<char>, Map<ValueView, Seq<Seq<char>>>>,
    a: Seq<char>,
    b: ValueView,
    id2: Seq<char>,
    n: Seq<char>,
    v: ValueView,
    id: Seq<char>,
)
    requires
        trait_sets_of(tm, n, v).contains(id),
    ensures
        trait_sets_of(push_trait_spec(tm, a, b, id2), n, v).contains(id),
{
    let out = push_trait_spec(tm, a, b, id2);
    if n == a && v == b {
        let sets = trait_sets_of(tm, a, b);
        let sets2 = set_with_id(sets, id2);
        if !sets.contains(id2) {
            let k = choose|k: int| 0 <= k < sets.len() && sets[k] == id;
            assert(sets2[k] == id);
        }
    }
}

/// A whole mint never unfiles anyone.
proof fn lemma_mint_keeps_member(
    tm: Map<Seq<char>, Map<ValueView, Seq<Seq<char>>>>,
    pairs: Seq<(Seq<char>, ValueView)>,
    id2: Seq<char>,
    n: Seq<char>,
    v: ValueView,
    id: Seq<char>,
)
    requires
        trait_sets_of(tm, n, v).contains(id),
    ensures
        trait_sets_of(mint_traits_spec(tm, pairs, id2), n, v).contains(id),
    decreases pairs.len(),
{
    if pairs.len() > 0 {
        lemma_push_trait_keeps_member(tm, pairs[0].0, pairs[0].1, id2, n, v, id);
        lemma_mint_keeps_member(
            push_trait_spec(tm, pairs[0].0, pairs[0].1, id2),
            pairs.skip(1),
            id2,
            n,
            v,
            id,
        );
    }
}

/// After a mint, the minted token is filed under every (name, value) pair
/// the mint carried.
proof fn lemma_mint_gives_member(
    tm: Map<Seq<char>, Map<ValueView, Seq<Seq<char>>>>,
    pairs: Seq<(Seq<char>, ValueView)>,
    id: Seq<char>,
)
    ensures
        forall|k: int|
            0 <= k < pairs.len() ==> trait_sets_of(
                mint_traits_spec(tm, pairs, id),
                (#[trigger] pairs[k]).0,
                pairs[k].1,
            ).contains(id),
    decreases pairs.len(),
{
    if pairs.len() > 0 {
        let stepped = push_trait_spec(tm, pairs[0].0, pairs[0].1, id);
        lemma_mint_gives_member(stepped, pairs.skip(1), id);
        assert forall|k: int|
            0 <= k < pairs.len() implies trait_sets_of(
            mint_traits_spec(tm, pairs, id),
            (#[trigger] pairs[k]).0,
            pairs[k].1,
        ).contains(id) by {
            if k == 0 {
                assert(trait_sets_of(stepped, pairs[0].0, pairs[0].1).contains(id)) by {
                    let sets = trait_sets_of(tm, pairs[0].0, pairs[0].1);
                    let sets2 = set_with_id(sets, id);
                    if !sets.contains(id) {
                        assert(sets2[sets2.len() - 1] == id);
                    }
                }
                lemma_mint_keeps_member(stepped, pairs.skip(1), id, pairs[0].0, pairs[0].1, id);
            } else {
                assert(pairs.skip(1)[k - 1] == pairs[k]);
                assert(trait_sets_of(
                    mint_traits_spec(stepped, pairs.skip(1), id),
                    pairs[k].0,
                    pairs[k].1,
                ).contains(id));
            }
        }
    }
}

/// Filing a token already filed under a (name, value) pair changes nothing.
proof fn lemma_push_trait_noop(
    tm: Map<Seq<char>, Map<ValueView, Seq<Seq<char>>>>,
    n: Seq<char>,
    v: ValueView,
    id: Seq<char>,
)
    requires
        trait_sets_of(tm, n, v).contains(id),
    ensures
        push_trait_spec(tm, n, v, id) == tm,
{
    assert(tm.contains_key(n) && tm[n].contains_key(v));
    assert(tm[n].insert(v, tm[n][v]) =~= tm[n]);
    assert(tm.insert(n, tm[n]) =~= tm);
}

/// Minting a token already filed under every carried pair changes nothing.
proof fn lemma_mint_noop(
    tm: Map<Seq<char>, Map<ValueView, Seq<Seq<char>>>>,
    pairs: Seq<(Seq<char>, ValueView)>,
    id: Seq<char>,
)
    requires
        forall|k: int|
            0 <= k < pairs.len() ==> trait_sets_of(
                tm,
                (#[trigger] pairs[k]).0,
                pairs[k].1,
            ).contains(id),
    ensures
        mint_traits_spec(tm, pairs, id) == tm,
    decreases pairs.len(),
{
    if pairs.len() > 0 {
        lemma_push_trait_noop(tm, pairs[0].0, pairs[0].1, id);
        assert(forall|k: int|
            0 <= k < pairs.skip(1).len() ==> #[trigger] pairs.skip(1)[k] == pairs[k + 1]);
        lemma_mint_noop(tm, pairs.skip(1), id);
    }
}

/// Minting the same token twice with identical traits files it exactly as
/// one mint does: Trait Filter Map membership is unchanged by the second
/// mint, and no trait set ever holds an identifier twice.
pub proof fn lemma_mint_idempotent(
    tm: Map<Seq<char>, Map<ValueView, Seq<Seq<char>>>>,
    pairs: Seq<(Seq<char>, ValueView)>,
    id: Seq<char>,
)
    ensures
        mint_traits_spec(mint_traits_spec(tm, pairs, id), pairs, id) == mint_traits_spec(
            tm,
            pairs,
            id,
        ),
{
    lemma_mint_gives_member(tm, pairs, id);
    lemma_mint_noop(mint_traits_spec(tm, pairs, id), pairs, id);
}

/// Applying the same mint event twice leaves the Trait Filter Maps exactly
/// as the first application left them.
pub proof fn lemma_mint_twice_unchanged(
    d0: DbView,
    d1: DbView,
    d2: DbView,
    e: crate::types::EventView,
    now1: u64,
    now2: u64,
)
    requires
        spec_parse_operation(e.operation) == Some(Operation::Mint),
        event_applied(d0, d1, e, now1),
        event_applied(d1, d2, e, now2),
    ensures
        d2.trait_maps == d1.trait_maps,
{
    lemma_mint_idempotent(d0.trait_maps, crate::model::event_trait_pairs(e), e.token_id);
}

/// Any restored state with the same view answers every query exactly as
/// the state it was taken from: query results are a function of the state
/// alone.
pub proof fn lemma_restored_state_answers_alike(a: Database, b: Database, req: QueryRequest)
    requires
        a@ == b@,
    ensures
        spec_query(a@, req@) == spec_query(b@, req@),
{
}

} // verus!
