use crate::model::{
    base_record, best_of, buyer_of, db_inv, empty_db_view, event_applied, event_trait_pairs,
    fungible_of, ids_view, lemma_inv_after, lemma_sorted_metric_preserved, max_offer_price,
    mint_traits_spec, offers_without, price_of, record_after, store_keys, store_map, traits_map,
    DbView, MetricKind,
};
use crate::store::{push_trait, store_ensure, store_get, store_put, tm_wf};
use crate::types::{
    clone_named_values, spec_parse_operation, Event, GenericValue, Offer, OfferView, Operation,
    OperationError, Principal, Sale, TokenData,
};
use vstd::prelude::*;

verus! {

broadcast use vstd::std_specs::vec::group_vec_axioms;

/// One collection's curation index: the primary per-token record store, the
/// seven Sort Indexes, and the Trait Filter Maps.
pub struct Database {
    /// Ascending by current listing price.
    pub listing_price: Vec<String>,
    /// Ascending by current best offer.
    pub offer_price: Vec<String>,
    /// Ascending by last sale price.
    pub sale_price: Vec<String>,
    /// Most recently listed last.
    pub last_listing: Vec<String>,
    /// Most recently offered on last.
    pub last_offer: Vec<String>,
    /// Most recently sold last.
    pub last_sale: Vec<String>,
    /// Every token ever touched, most recently touched last.
    pub all_tokens: Vec<String>,
    /// Trait name to trait value to the tokens minted with that pair.
    pub trait_maps: Vec<(String, Vec<(GenericValue, Vec<String>)>)>,
    /// The primary store: token identifier to its record.
    pub db: Vec<(String, TokenData)>,
}

impl View for Database {
    type V = DbView;

    open spec fn view(&self) -> DbView {
        DbView {
            store: store_map(self.db@),
            listing_price: ids_view(self.listing_price@),
            offer_price: ids_view(self.offer_price@),
            sale_price: ids_view(self.sale_price@),
            last_listing: ids_view(self.last_listing@),
            last_offer: ids_view(self.last_offer@),
            last_sale: ids_view(self.last_sale@),
            all_tokens: ids_view(self.all_tokens@),
            trait_maps: traits_map(self.trait_maps@),
        }
    }
}

impl Database {
    /// Well-formed: the representation keys each identifier once, and the
    /// state satisfies the index invariant.
    pub open spec fn wf(&self) -> bool {
        &&& store_keys(self.db@).no_duplicates()
        &&& tm_wf(self.trait_maps@)
        &&& db_inv(self@)
    }

    /// A fresh, empty index.
    pub fn new() -> (d: Database)
        ensures
            d.wf(),
            d@ == empty_db_view(),
    {
        let d = Database {
            listing_price: Vec::new(),
            offer_price: Vec::new(),
            sale_price: Vec::new(),
            last_listing: Vec::new(),
            last_offer: Vec::new(),
            last_sale: Vec::new(),
            all_tokens: Vec::new(),
            trait_maps: Vec::new(),
            db: Vec::new(),
        };
        proof {
            assert(store_map(d.db@) =~= Map::empty());
            assert(traits_map(d.trait_maps@) =~= Map::empty());
            assert(ids_view(d.listing_price@) =~= Seq::<Seq<char>>::empty());
            assert(ids_view(d.offer_price@) =~= Seq::<Seq<char>>::empty());
            assert(ids_view(d.sale_price@) =~= Seq::<Seq<char>>::empty());
            assert(ids_view(d.last_listing@) =~= Seq::<Seq<char>>::empty());
            assert(ids_view(d.last_offer@) =~= Seq::<Seq<char>>::empty());
            assert(ids_view(d.last_sale@) =~= Seq::<Seq<char>>::empty());
            assert(ids_view(d.all_tokens@) =~= Seq::<Seq<char>>::empty());
            assert(d@ =~= empty_db_view());
            assert(store_keys(d.db@) =~= Seq::<Seq<char>>::empty());
            assert(crate::model::traits_keys(d.trait_maps@) =~= Seq::<Seq<char>>::empty());
        }
        d
    }

    /// The record stored for a token identifier, if any event ever named it.
    pub fn get(&self, token_id: &String) -> (r: Option<&TokenData>)
        requires
            self.wf(),
        ensures
            match r {
                Some(t) => self@.store.contains_key(token_id@) && t@ == self@.store[token_id@],
                None => !self@.store.contains_key(token_id@),
            },
    {
        store_get(&self.db, token_id)
    }
}

/// The cached best offer a list of open offers calls for: their maximum
/// price, or absent when none are open.
#[verifier::loop_isolation(false)]
pub fn best_offer_of(offers: &Vec<Offer>) -> (r: Option<u64>)
    ensures
        r == best_of(offers@.map_values(|o: Offer| o@)),
{
    let ghost ov = offers@.map_values(|o: Offer| o@);
    if offers.len() == 0 {
        return None;
    }
    let mut best: u64 = 0;
    let mut i: usize = 0;
    while i < offers.len()
        invariant
            0 <= i <= offers.len(),
            best == max_offer_price(ov.take(i as int)),
        decreases offers.len() - i,
    {
        proof {
            assert(ov.take(i + 1).drop_last() =~= ov.take(i as int));
            assert(ov.take(i + 1).last() == ov[i as int]);
        }
        if offers[i].price > best {
            best = offers[i].price;
        }
        i += 1;
    }
    proof {
        assert(ov.take(ov.len() as int) =~= ov);
    }
    Some(best)
}

/// The open offers left once one buyer's offers are all removed.
#[verifier::loop_isolation(false)]
pub fn offers_without_buyer(offers: &Vec<Offer>, buyer: &Principal) -> (r: Vec<Offer>)
    ensures
        r@.map_values(|o: Offer| o@) == offers_without(
            offers@.map_values(|o: Offer| o@),
            buyer@,
        ),
{
    let ghost ov = offers@.map_values(|o: Offer| o@);
    let mut out: Vec<Offer> = Vec::new();
    let mut i: usize = 0;
    proof {
        assert(ov.skip(0) =~= ov);
        assert(out@.map_values(|o: Offer| o@) =~= Seq::<OfferView>::empty());
        assert(Seq::<OfferView>::empty() + offers_without(ov, buyer@) =~= offers_without(
            ov,
            buyer@,
        ));
    }
    while i < offers.len()
        invariant
            0 <= i <= offers.len(),
            out@.map_values(|o: Offer| o@) + offers_without(ov.skip(i as int), buyer@)
                =~= offers_without(ov, buyer@),
        decreases offers.len() - i,
    {
        let ghost outv = out@.map_values(|o: Offer| o@);
        proof {
            assert(ov.skip(i as int)[0] == ov[i as int]);
            assert(ov.skip(i as int).skip(1) =~= ov.skip(i + 1));
        }
        if !(offers[i].buyer.eq_bytes(buyer)) {
            out.push(offers[i].clone());
            proof {
                assert(out@.map_values(|o: Offer| o@) =~= outv.push(ov[i as int]));
                assert(outv.push(ov[i as int]) + offers_without(ov.skip(i + 1), buyer@) =~= outv
                    + (seq![ov[i as int]] + offers_without(ov.skip(i + 1), buyer@)));
            }
        }
        i += 1;
    }
    proof {
        assert(ov.skip(ov.len() as int) =~= Seq::<OfferView>::empty());
        assert(out@.map_values(|o: Offer| o@) + Seq::<OfferView>::empty() =~= out@.map_values(
            |o: Offer| o@,
        ));
    }
    out
}


impl Database {
    /// A listing event: the record takes the event's price (zero when absent)
    /// and the listing time; the token enters or moves within
    /// `listing_price`, and becomes the most recently listed.
    #[verifier::loop_isolation(false)]
    fn apply_make_listing(&mut self, event: &Event, now: u64)
        requires
            old(self).wf(),
            spec_parse_operation(event@.operation) == Some(Operation::MakeListing),
        ensures
            final(self).wf(),
            event_applied(old(self)@, final(self)@, event@, now),
    {
        let ghost d0 = self@;
        let ghost id = event@.token_id;
        let ghost t1 = record_after(
            Operation::MakeListing,
            base_record(d0.store, id),
            event@,
            now,
        );
        let idx = store_ensure(&mut self.db, &event.token_id);
        let mut rec = self.db[idx].1.clone();
        rec.price = Some(
            match event.price {
                Some(p) => p,
                None => 0,
            },
        );
        rec.last_listing = Some(now);
        proof {
            assert(rec@ == t1);
        }
        store_put(&mut self.db, idx, rec);
        proof {
            assert(store_map(self.db@) =~= d0.store.insert(id, t1));
            if !ids_view(self.listing_price@).contains(id) {
                lemma_sorted_metric_preserved(
                    d0.store,
                    store_map(self.db@),
                    ids_view(self.listing_price@),
                    MetricKind::Listing,
                );
            }
        }
        crate::indexes::value_index_update(
            &mut self.listing_price,
            &self.db,
            &event.token_id,
            MetricKind::Listing,
        );
        crate::indexes::move_to_tail(&mut self.last_listing, event.token_id.clone());
        crate::indexes::move_to_tail(&mut self.all_tokens, event.token_id.clone());
        proof {
            assert(event_applied(d0, self@, event@, now));
            lemma_inv_after(d0, self@, event@, now);
        }
    }

    /// A cancelled listing: the record's price is cleared and the token
    /// leaves `listing_price` and `last_listing`.
    #[verifier::loop_isolation(false)]
    fn apply_cancel_listing(&mut self, event: &Event, now: u64)
        requires
            old(self).wf(),
            spec_parse_operation(event@.operation) == Some(Operation::CancelListing),
        ensures
            final(self).wf(),
            event_applied(old(self)@, final(self)@, event@, now),
    {
        let ghost d0 = self@;
        let ghost id = event@.token_id;
        let ghost t1 = record_after(
            Operation::CancelListing,
            base_record(d0.store, id),
            event@,
            now,
        );
        let idx = store_ensure(&mut self.db, &event.token_id);
        let mut rec = self.db[idx].1.clone();
        rec.price = None;
        proof {
            assert(rec@ == t1);
        }
        store_put(&mut self.db, idx, rec);
        proof {
            assert(store_map(self.db@) =~= d0.store.insert(id, t1));
        }
        crate::indexes::index_remove(&mut self.listing_price, &event.token_id);
        crate::indexes::index_remove(&mut self.last_listing, &event.token_id);
        crate::indexes::move_to_tail(&mut self.all_tokens, event.token_id.clone());
        proof {
            assert(event_applied(d0, self@, event@, now));
            lemma_inv_after(d0, self@, event@, now);
        }
    }

    /// A mint: the record takes the event's trait map, and the token joins
    /// the Trait Filter Map set of every (name, value) pair it was minted
    /// with, each at most once.
    #[verifier::loop_isolation(false)]
    fn apply_mint(&mut self, event: &Event, now: u64)
        requires
            old(self).wf(),
            spec_parse_operation(event@.operation) == Some(Operation::Mint),
        ensures
            final(self).wf(),
            event_applied(old(self)@, final(self)@, event@, now),
    {
        let ghost d0 = self@;
        let ghost id = event@.token_id;
        let ghost t1 = record_after(Operation::Mint, base_record(d0.store, id), event@, now);
        let idx = store_ensure(&mut self.db, &event.token_id);
        let mut rec = self.db[idx].1.clone();
        rec.id = event.token_id.clone();
        rec.traits = match &event.traits {
            Some(ps) => Some(clone_named_values(ps)),
            None => None,
        };
        proof {
            assert(rec@ == t1);
        }
        store_put(&mut self.db, idx, rec);
        proof {
            assert(store_map(self.db@) =~= d0.store.insert(id, t1));
        }
        let ghost tm0 = traits_map(self.trait_maps@);
        let ghost pairs = event_trait_pairs(event@);
        let ghost mid = *self;
        match &event.traits {
            Some(ps) => {
                proof {
                    crate::types::lemma_nested_pairs_view(ps@);
                    assert(pairs.take(0) =~= Seq::<(Seq<char>, crate::types::ValueView)>::empty());
                }
                let mut i: usize = 0;
                while i < ps.len()
                    invariant
                        0 <= i <= ps.len(),
                        self.db == mid.db,
                        self.listing_price == mid.listing_price,
                        self.offer_price == mid.offer_price,
                        self.sale_price == mid.sale_price,
                        self.last_listing == mid.last_listing,
                        self.last_offer == mid.last_offer,
                        self.last_sale == mid.last_sale,
                        self.all_tokens == mid.all_tokens,
                        tm_wf(self.trait_maps@),
                        traits_map(self.trait_maps@) == mint_traits_spec(
                            tm0,
                            pairs.take(i as int),
                            id,
                        ),
                    decreases ps.len() - i,
                {
                    let name = ps[i].0.clone();
                    let value = crate::types::clone_value(&ps[i].1);
                    proof {
                        assert(pairs[i as int] == (ps@[i as int].0@, ps@[i as int].1@));
                    }
                    push_trait(&mut self.trait_maps, name, value, &event.token_id);
                    proof {
                        crate::model::lemma_mint_traits_take_step(tm0, pairs, id, i as int);
                    }
                    i += 1;
                }
                proof {
                    assert(pairs.take(pairs.len() as int) =~= pairs);
                }
            },
            None => {
                proof {
                    assert(pairs.len() == 0);
                }
            },
        }
        crate::indexes::move_to_tail(&mut self.all_tokens, event.token_id.clone());
        proof {
            assert(event_applied(d0, self@, event@, now));
            lemma_inv_after(d0, self@, event@, now);
        }
    }

    /// A new offer: appended to the record's open offers, with the cached
    /// best offer recomputed as the maximum over all of them; the token
    /// enters or moves within `offer_price`, and becomes the most recently
    /// offered on.
    #[verifier::loop_isolation(false)]
    fn apply_make_offer(&mut self, event: &Event, now: u64)
        requires
            old(self).wf(),
            spec_parse_operation(event@.operation) == Some(Operation::MakeOffer),
        ensures
            final(self).wf(),
            event_applied(old(self)@, final(self)@, event@, now),
    {
        let ghost d0 = self@;
        let ghost id = event@.token_id;
        let ghost t1 = record_after(
            Operation::MakeOffer,
            base_record(d0.store, id),
            event@,
            now,
        );
        let idx = store_ensure(&mut self.db, &event.token_id);
        let mut rec = self.db[idx].1.clone();
        let ghost offers0 = rec.offers@.map_values(|o: Offer| o@);
        rec.last_offer = Some(now);
        let offer = Offer {
            buyer: match &event.buyer {
                Some(b) => b.clone(),
                None => Principal::anonymous(),
            },
            fungible: match &event.fungible_id {
                Some(f) => f.clone(),
                None => Principal::management_canister(),
            },
            price: match event.price {
                Some(p) => p,
                None => 0,
            },
        };
        proof {
            assert(offer@ == (OfferView {
                buyer: buyer_of(event@),
                fungible: fungible_of(event@),
                price: price_of(event@),
            }));
        }
        rec.offers.push(offer);
        proof {
            assert(rec.offers@.map_values(|o: Offer| o@) =~= offers0.push(
                OfferView {
                    buyer: buyer_of(event@),
                    fungible: fungible_of(event@),
                    price: price_of(event@),
                },
            ));
        }
        rec.best_offer = best_offer_of(&rec.offers);
        proof {
            assert(rec@ == t1);
        }
        store_put(&mut self.db, idx, rec);
        proof {
            assert(store_map(self.db@) =~= d0.store.insert(id, t1));
            if !ids_view(self.offer_price@).contains(id) {
                lemma_sorted_metric_preserved(
                    d0.store,
                    store_map(self.db@),
                    ids_view(self.offer_price@),
                    MetricKind::Offer,
                );
            }
        }
        crate::indexes::value_index_update(
            &mut self.offer_price,
            &self.db,
            &event.token_id,
            MetricKind::Offer,
        );
        crate::indexes::move_to_tail(&mut self.last_offer, event.token_id.clone());
        crate::indexes::move_to_tail(&mut self.all_tokens, event.token_id.clone());
        proof {
            assert(event_applied(d0, self@, event@, now));
            lemma_inv_after(d0, self@, event@, now);
        }
    }

    /// A cancelled offer: every offer by the event's buyer is removed and
    /// the cached best offer recomputed over what remains; with no offers
    /// left the token leaves `offer_price` and `last_offer`, otherwise it is
    /// repositioned in `offer_price`.
    #[verifier::loop_isolation(false)]
    fn apply_cancel_offer(&mut self, event: &Event, now: u64)
        requires
            old(self).wf(),
            spec_parse_operation(event@.operation) == Some(Operation::CancelOffer),
        ensures
            final(self).wf(),
            event_applied(old(self)@, final(self)@, event@, now),
    {
        let ghost d0 = self@;
        let ghost id = event@.token_id;
        let ghost t1 = record_after(
            Operation::CancelOffer,
            base_record(d0.store, id),
            event@,
            now,
        );
        let idx = store_ensure(&mut self.db, &event.token_id);
        let mut rec = self.db[idx].1.clone();
        match &event.buyer {
            Some(b) => {
                rec.offers = offers_without_buyer(&rec.offers, b);
            },
            None => {},
        }
        rec.best_offer = best_offer_of(&rec.offers);
        let offers_empty = rec.offers.len() == 0;
        proof {
            assert(rec@ == t1);
            assert(offers_empty == (t1.offers.len() == 0));
        }
        store_put(&mut self.db, idx, rec);
        proof {
            assert(store_map(self.db@) =~= d0.store.insert(id, t1));
        }
        if offers_empty {
            crate::indexes::index_remove(&mut self.offer_price, &event.token_id);
            crate::indexes::index_remove(&mut self.last_offer, &event.token_id);
        } else {
            proof {
                assert(base_record(d0.store, id).offers.len() > 0) by {
                    if base_record(d0.store, id).offers.len() == 0 {
                        assert(base_record(d0.store, id).offers =~= Seq::<OfferView>::empty());
                        assert(t1.offers.len() == 0);
                    }
                }
                assert(d0.store.contains_key(id));
                assert(ids_view(self.offer_price@).contains(id));
            }
            crate::indexes::value_index_update(
                &mut self.offer_price,
                &self.db,
                &event.token_id,
                MetricKind::Offer,
            );
        }
        crate::indexes::move_to_tail(&mut self.all_tokens, event.token_id.clone());
        proof {
            assert(event_applied(d0, self@, event@, now));
            lemma_inv_after(d0, self@, event@, now);
        }
    }

    /// A sale: the sale is recorded, the listing cleared, the buyer's offers
    /// (if the event names a buyer) removed exactly as a cancelled offer;
    /// the token is placed in `sale_price` by the sale price, leaves
    /// `listing_price`, and becomes the most recently sold.
    #[verifier::loop_isolation(false)]
    fn apply_sale(&mut self, event: &Event, now: u64)
        requires
            old(self).wf(),
            spec_parse_operation(event@.operation) == Some(Operation::DirectBuy)
                || spec_parse_operation(event@.operation) == Some(Operation::AcceptOffer),
        ensures
            final(self).wf(),
            event_applied(old(self)@, final(self)@, event@, now),
    {
        let ghost d0 = self@;
        let ghost id = event@.token_id;
        let ghost op = spec_parse_operation(event@.operation).unwrap();
        let ghost t1 = record_after(op, base_record(d0.store, id), event@, now);
        let idx = store_ensure(&mut self.db, &event.token_id);
        let mut rec = self.db[idx].1.clone();
        match &event.buyer {
            Some(b) => {
                rec.offers = offers_without_buyer(&rec.offers, b);
            },
            None => {},
        }
        rec.best_offer = best_offer_of(&rec.offers);
        rec.price = None;
        rec.last_sale = Some(
            Sale {
                buyer: match &event.buyer {
                    Some(b) => b.clone(),
                    None => Principal::anonymous(),
                },
                fungible: match &event.fungible_id {
                    Some(f) => f.clone(),
                    None => Principal::management_canister(),
                },
                price: match event.price {
                    Some(p) => p,
                    None => 0,
                },
                time: now,
            },
        );
        let offers_empty = rec.offers.len() == 0;
        proof {
            assert(rec@ == t1);
            assert(offers_empty == (t1.offers.len() == 0));
        }
        store_put(&mut self.db, idx, rec);
        proof {
            assert(store_map(self.db@) =~= d0.store.insert(id, t1));
        }
        let has_buyer = match &event.buyer {
            Some(_) => true,
            None => false,
        };
        if has_buyer {
            if offers_empty {
                crate::indexes::index_remove(&mut self.offer_price, &event.token_id);
                crate::indexes::index_remove(&mut self.last_offer, &event.token_id);
            } else {
                proof {
                    assert(base_record(d0.store, id).offers.len() > 0) by {
                        if base_record(d0.store, id).offers.len() == 0 {
                            assert(base_record(d0.store, id).offers =~= Seq::<OfferView>::empty());
                            assert(t1.offers.len() == 0);
                        }
                    }
                    assert(d0.store.contains_key(id));
                    assert(ids_view(self.offer_price@).contains(id));
                }
                crate::indexes::value_index_update(
                    &mut self.offer_price,
                    &self.db,
                    &event.token_id,
                    MetricKind::Offer,
                );
            }
        }
        proof {
            if !ids_view(self.sale_price@).contains(id) {
                lemma_sorted_metric_preserved(
                    d0.store,
                    store_map(self.db@),
                    ids_view(self.sale_price@),
                    MetricKind::Sale,
                );
            }
        }
        crate::indexes::value_index_update(
            &mut self.sale_price,
            &self.db,
            &event.token_id,
            MetricKind::Sale,
        );
        crate::indexes::index_remove(&mut self.listing_price, &event.token_id);
        crate::indexes::move_to_tail(&mut self.last_sale, event.token_id.clone());
        crate::indexes::move_to_tail(&mut self.all_tokens, event.token_id.clone());
        proof {
            assert(event_applied(d0, self@, event@, now));
            lemma_inv_after(d0, self@, event@, now);
        }
    }

    /// Applies one lifecycle event to the index, atomically: the primary
    /// record and every Sort Index and Trait Filter Map the operation
    /// touches, exactly as `event_applied` states.  An event whose operation
    /// tag names none of the seven operations is rejected before anything is
    /// touched.
    pub fn index_event(&mut self, event: Event, now: u64) -> (r: Result<(), OperationError>)
        requires
            old(self).wf(),
        ensures
            final(self).wf(),
            match r {
                Ok(_) => spec_parse_operation(event@.operation) is Some && event_applied(
                    old(self)@,
                    final(self)@,
                    event@,
                    now,
                ),
                Err(err) => {
                    &&& err == OperationError::UnknownOperation
                    &&& spec_parse_operation(event@.operation) is None
                    &&& *final(self) == *old(self)
                },
            },
    {
        let op = match crate::types::parse_operation(&event.operation) {
            Some(op) => op,
            None => {
                return Err(OperationError::UnknownOperation);
            },
        };
        match op {
            Operation::Mint => self.apply_mint(&event, now),
            Operation::MakeListing => self.apply_make_listing(&event, now),
            Operation::CancelListing => self.apply_cancel_listing(&event, now),
            Operation::MakeOffer => self.apply_make_offer(&event, now),
            Operation::CancelOffer => self.apply_cancel_offer(&event, now),
            Operation::DirectBuy => self.apply_sale(&event, now),
            Operation::AcceptOffer => self.apply_sale(&event, now),
        }
        Ok(())
    }
}


/// A copy of a Sort Index holding the same identifiers in the same order.
#[verifier::loop_isolation(false)]
fn clone_ids(v: &Vec<String>) -> (r: Vec<String>)
    ensures
        ids_view(r@) == ids_view(v@),
{
    let mut r: Vec<String> = Vec::new();
    let mut i: usize = 0;
    while i < v.len()
        invariant
            0 <= i <= v.len(),
            r@.len() == i,
            forall|j: int| 0 <= j < i ==> #[trigger] ids_view(r@)[j] == ids_view(v@)[j],
        decreases v.len() - i,
    {
        let ghost prev = r@;
        r.push(v[i].clone());
        proof {
            assert(ids_view(r@) =~= ids_view(prev).push(v@[i as int]@));
        }
        i += 1;
    }
    proof {
        assert(ids_view(r@) =~= ids_view(v@));
    }
    r
}

impl Database {
    /// A full copy of the index state, holding exactly the same records,
    /// Sort Indexes and Trait Filter Maps.  The transport shell persists
    /// and restores state through copies like this one; any restored state
    /// with this state's view answers every query identically.
    #[verifier::loop_isolation(false)]
    pub fn snapshot(&self) -> (s: Database)
        requires
            self.wf(),
        ensures
            s.wf(),
            s@ == self@,
    {
        let mut db_copy: Vec<(String, TokenData)> = Vec::new();
        let mut i: usize = 0;
        while i < self.db.len()
            invariant
                0 <= i <= self.db.len(),
                db_copy@.len() == i,
                forall|j: int|
                    0 <= j < i ==> (#[trigger] db_copy@[j]).0@ == (#[trigger] self.db@[j]).0@
                        && db_copy@[j].1@ == self.db@[j].1@,
            decreases self.db.len() - i,
        {
            db_copy.push((self.db[i].0.clone(), self.db[i].1.clone()));
            i += 1;
        }
        let mut tm_copy: Vec<(String, Vec<(GenericValue, Vec<String>)>)> = Vec::new();
        let mut j: usize = 0;
        while j < self.trait_maps.len()
            invariant
                0 <= j <= self.trait_maps.len(),
                tm_copy@.len() == j,
                forall|t: int|
                    0 <= t < j ==> (#[trigger] tm_copy@[t]).0@ == (
                    #[trigger] self.trait_maps@[t]).0@ && crate::model::value_sets_map(
                        tm_copy@[t].1@,
                    ) == crate::model::value_sets_map(self.trait_maps@[t].1@)
                        && crate::model::value_sets_keys(tm_copy@[t].1@)
                        == crate::model::value_sets_keys(self.trait_maps@[t].1@),
            decreases self.trait_maps.len() - j,
        {
            let entry = &self.trait_maps[j].1;
            let mut inner: Vec<(GenericValue, Vec<String>)> = Vec::new();
            let mut k: usize = 0;
            while k < entry.len()
                invariant
                    0 <= k <= entry.len(),
                    inner@.len() == k,
                    forall|t: int|
                        0 <= t < k ==> (#[trigger] inner@[t]).0@ == (#[trigger] entry@[t]).0@
                            && ids_view(inner@[t].1@) == ids_view(entry@[t].1@),
                decreases entry.len() - k,
            {
                inner.push((crate::types::clone_value(&entry[k].0), clone_ids(&entry[k].1)));
                k += 1;
            }
            proof {
                crate::model::lemma_value_sets_congruent(inner@, entry@);
            }
            tm_copy.push((self.trait_maps[j].0.clone(), inner));
            j += 1;
        }
        let s = Database {
            listing_price: clone_ids(&self.listing_price),
            offer_price: clone_ids(&self.offer_price),
            sale_price: clone_ids(&self.sale_price),
            last_listing: clone_ids(&self.last_listing),
            last_offer: clone_ids(&self.last_offer),
            last_sale: clone_ids(&self.last_sale),
            all_tokens: clone_ids(&self.all_tokens),
            trait_maps: tm_copy,
            db: db_copy,
        };
        proof {
            crate::model::lemma_store_find_congruent(s.db@, self.db@);
            assert(store_map(s.db@) =~= store_map(self.db@));
            crate::model::lemma_traits_congruent(s.trait_maps@, self.trait_maps@);
            assert(s@ =~= self@);
            assert(crate::model::traits_keys(s.trait_maps@) == crate::model::traits_keys(
                self.trait_maps@,
            ));
            assert forall|t: int|
                0 <= t < s.trait_maps@.len() implies crate::model::value_sets_keys(
                (#[trigger] s.trait_maps@[t]).1@,
            ).no_duplicates() by {
                assert(crate::model::value_sets_keys(s.trait_maps@[t].1@)
                    == crate::model::value_sets_keys(self.trait_maps@[t].1@));
            }
        }
        s
    }
}

} // verus!
