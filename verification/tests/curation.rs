use curation::db::Database;
use curation::ledger::{batch_insert, insert, Ledger};
use curation::types::{
    Event, GenericValue, InsertError, OperationError, Principal, QueryError, QueryRequest,
};

fn principal(tag: u8) -> Principal {
    Principal::from_bytes(vec![tag, tag, tag])
}

fn event(op: &str, token: &str) -> Event {
    Event {
        nft_canister_id: Principal::management_canister(),
        fungible_id: None,
        token_id: token.to_string(),
        operation: op.to_string(),
        traits: None,
        price: None,
        buyer: None,
        seller: None,
    }
}

fn listing(token: &str, price: u64) -> Event {
    let mut e = event("makeListing", token);
    e.price = Some(price);
    e
}

fn offer(token: &str, buyer: Principal, price: u64) -> Event {
    let mut e = event("makeOffer", token);
    e.buyer = Some(buyer);
    e.price = Some(price);
    e
}

fn cancel_offer(token: &str, buyer: Principal) -> Event {
    let mut e = event("cancelOffer", token);
    e.buyer = Some(buyer);
    e
}

fn mint(token: &str, traits: Vec<(&str, GenericValue)>) -> Event {
    let mut e = event("mint", token);
    e.traits = Some(
        traits
            .into_iter()
            .map(|(name, value)| (name.to_string(), value))
            .collect(),
    );
    e
}

fn query(db: &Database, sort_key: &str) -> curation::types::QueryResponse {
    db.query(QueryRequest {
        sort_key: sort_key.to_string(),
        last_index: None,
        count: None,
        traits: None,
        reverse: None,
    })
}

#[test]
fn listing_order_ascending() {
    let mut db = Database::new();
    db.index_event(mint("t1", vec![]), 1).unwrap();
    db.index_event(mint("t2", vec![]), 2).unwrap();
    db.index_event(listing("t1", 100), 3).unwrap();
    db.index_event(listing("t2", 50), 4).unwrap();
    let r = db.query(QueryRequest {
        sort_key: "listing_price".to_string(),
        last_index: None,
        count: Some(10),
        traits: None,
        reverse: Some(true),
    });
    assert_eq!(r.total, 2);
    assert_eq!(r.data.len(), 2);
    assert_eq!(r.data[0].id, "t2");
    assert_eq!(r.data[0].price, Some(50));
    assert_eq!(r.data[1].id, "t1");
    assert_eq!(r.data[1].price, Some(100));
    assert!(r.error.is_none());
}

#[test]
fn relisting_repositions_by_new_price() {
    let mut db = Database::new();
    db.index_event(mint("t1", vec![]), 1).unwrap();
    db.index_event(mint("t2", vec![]), 2).unwrap();
    db.index_event(listing("t1", 100), 3).unwrap();
    db.index_event(listing("t2", 50), 4).unwrap();
    // t1 moves from the high end to the low end; the index must resort.
    db.index_event(listing("t1", 10), 5).unwrap();
    let r = db.query(QueryRequest {
        sort_key: "listing_price".to_string(),
        last_index: None,
        count: Some(10),
        traits: None,
        reverse: Some(true),
    });
    assert_eq!(r.data.len(), 2);
    assert_eq!(r.data[0].id, "t1");
    assert_eq!(r.data[0].price, Some(10));
    assert_eq!(r.data[1].id, "t2");
}

#[test]
fn best_offer_is_maximum_and_survives_cancel() {
    let mut db = Database::new();
    let b1 = principal(1);
    let b2 = principal(2);
    db.index_event(offer("t1", b1.clone(), 10), 1).unwrap();
    db.index_event(offer("t1", b2.clone(), 20), 2).unwrap();
    assert_eq!(db.get(&"t1".to_string()).unwrap().best_offer, Some(20));
    db.index_event(cancel_offer("t1", b2), 3).unwrap();
    let rec = db.get(&"t1".to_string()).unwrap();
    assert_eq!(rec.best_offer, Some(10));
    assert_eq!(rec.offers.len(), 1);
    // t1 still has an open offer, so it stays in offer_price.
    let r = query(&db, "offer_price");
    assert_eq!(r.total, 1);
    assert_eq!(r.data[0].best_offer, Some(10));
}

#[test]
fn best_offer_not_fooled_by_lower_late_offer() {
    let mut db = Database::new();
    db.index_event(offer("t1", principal(1), 30), 1).unwrap();
    db.index_event(offer("t1", principal(2), 20), 2).unwrap();
    // the newest offer is lower; the cached best offer is still the maximum
    assert_eq!(db.get(&"t1".to_string()).unwrap().best_offer, Some(30));
}

#[test]
fn cancelling_only_offer_clears_offer_indexes() {
    let mut db = Database::new();
    let b1 = principal(1);
    db.index_event(offer("t1", b1.clone(), 10), 1).unwrap();
    db.index_event(cancel_offer("t1", b1), 2).unwrap();
    let rec = db.get(&"t1".to_string()).unwrap();
    assert!(rec.best_offer.is_none());
    assert_eq!(rec.offers.len(), 0);
    assert_eq!(query(&db, "offer_price").total, 0);
    assert_eq!(query(&db, "last_offer").total, 0);
    // the token is still addressable and still in the "all" index
    assert_eq!(query(&db, "all").total, 1);
}

#[test]
fn unknown_sort_key_is_reported() {
    let db = Database::new();
    let r = query(&db, "popularity");
    assert_eq!(r.total, 0);
    assert_eq!(r.error, Some(QueryError::SortKeyNotFound));
    assert!(r.data.is_empty());
    assert!(r.last_index.is_none());
}

#[test]
fn cursor_beyond_index_is_out_of_bounds() {
    let mut db = Database::new();
    db.index_event(mint("t1", vec![]), 1).unwrap();
    let r = db.query(QueryRequest {
        sort_key: "all".to_string(),
        last_index: Some(5),
        count: None,
        traits: None,
        reverse: None,
    });
    assert_eq!(r.error, Some(QueryError::PageOutOfBounds));
    assert_eq!(r.total, 0);
    assert!(r.data.is_empty());
}

#[test]
fn trait_filter_selects_matching_tokens() {
    let mut db = Database::new();
    db.index_event(
        mint("t1", vec![("color", GenericValue::TextContent("red".to_string()))]),
        1,
    )
    .unwrap();
    db.index_event(
        mint("t2", vec![("color", GenericValue::TextContent("blue".to_string()))]),
        2,
    )
    .unwrap();
    let r = db.query(QueryRequest {
        sort_key: "all".to_string(),
        last_index: None,
        count: None,
        traits: Some(vec![(
            "color".to_string(),
            GenericValue::TextContent("red".to_string()),
        )]),
        reverse: None,
    });
    assert_eq!(r.data.len(), 1);
    assert_eq!(r.data[0].id, "t1");
    assert!(r.error.is_none());
}

#[test]
fn trait_filters_are_unioned() {
    let mut db = Database::new();
    db.index_event(
        mint("t1", vec![("color", GenericValue::TextContent("red".to_string()))]),
        1,
    )
    .unwrap();
    db.index_event(
        mint("t2", vec![("color", GenericValue::TextContent("blue".to_string()))]),
        2,
    )
    .unwrap();
    db.index_event(
        mint("t3", vec![("color", GenericValue::TextContent("green".to_string()))]),
        3,
    )
    .unwrap();
    let r = db.query(QueryRequest {
        sort_key: "all".to_string(),
        last_index: None,
        count: None,
        traits: Some(vec![
            ("color".to_string(), GenericValue::TextContent("red".to_string())),
            ("color".to_string(), GenericValue::TextContent("blue".to_string())),
        ]),
        reverse: Some(true),
    });
    let ids: Vec<&str> = r.data.iter().map(|t| t.id.as_str()).collect();
    assert_eq!(ids, vec!["t1", "t2"]);
}

#[test]
fn trait_filter_matching_nothing_is_reported() {
    let mut db = Database::new();
    db.index_event(
        mint("t1", vec![("color", GenericValue::TextContent("red".to_string()))]),
        1,
    )
    .unwrap();
    let r = db.query(QueryRequest {
        sort_key: "all".to_string(),
        last_index: None,
        count: None,
        traits: Some(vec![(
            "color".to_string(),
            GenericValue::TextContent("mauve".to_string()),
        )]),
        reverse: None,
    });
    assert_eq!(r.error, Some(QueryError::NoMatchingEntries));
    assert_eq!(r.total, 0);
    assert!(r.data.is_empty());
}

#[test]
fn minting_twice_files_traits_once() {
    let mut db = Database::new();
    let red = || GenericValue::TextContent("red".to_string());
    db.index_event(mint("t1", vec![("color", red())]), 1).unwrap();
    db.index_event(mint("t1", vec![("color", red())]), 2).unwrap();
    let r = db.query(QueryRequest {
        sort_key: "all".to_string(),
        last_index: None,
        count: None,
        traits: Some(vec![("color".to_string(), red())]),
        reverse: None,
    });
    assert_eq!(r.data.len(), 1);
    assert_eq!(r.data[0].id, "t1");
    assert_eq!(query(&db, "all").total, 1);
}

#[test]
fn nested_trait_values_compare_by_content() {
    let nested = || {
        GenericValue::NestedContent(vec![
            ("kind".to_string(), GenericValue::TextContent("gem".to_string())),
            ("count".to_string(), GenericValue::Nat64Content(3)),
        ])
    };
    let mut db = Database::new();
    db.index_event(mint("t1", vec![("detail", nested())]), 1).unwrap();
    // an equal nested value built separately must address the same set
    let r = db.query(QueryRequest {
        sort_key: "all".to_string(),
        last_index: None,
        count: None,
        traits: Some(vec![("detail".to_string(), nested())]),
        reverse: None,
    });
    assert_eq!(r.data.len(), 1);
    assert_eq!(r.data[0].id, "t1");
}

#[test]
fn sale_records_and_reindexes() {
    let mut db = Database::new();
    let buyer = principal(7);
    db.index_event(listing("t1", 100), 1).unwrap();
    let mut sale = event("directBuy", "t1");
    sale.buyer = Some(buyer);
    sale.price = Some(90);
    db.index_event(sale, 2).unwrap();
    let rec = db.get(&"t1".to_string()).unwrap();
    assert!(rec.price.is_none());
    let s = rec.last_sale.as_ref().unwrap();
    assert_eq!(s.price, 90);
    assert_eq!(s.time, 2);
    assert_eq!(query(&db, "listing_price").total, 0);
    assert_eq!(query(&db, "sale_price").total, 1);
    assert_eq!(query(&db, "last_sale").total, 1);
    // last_listing keeps the token: only cancelListing removes it there
    assert_eq!(query(&db, "last_listing").total, 1);
}

#[test]
fn accept_offer_removes_buyers_offer() {
    let mut db = Database::new();
    let b1 = principal(1);
    let b2 = principal(2);
    db.index_event(offer("t1", b1.clone(), 10), 1).unwrap();
    db.index_event(offer("t1", b2.clone(), 25), 2).unwrap();
    let mut sale = event("acceptOffer", "t1");
    sale.buyer = Some(b2);
    sale.price = Some(25);
    db.index_event(sale, 3).unwrap();
    let rec = db.get(&"t1".to_string()).unwrap();
    assert_eq!(rec.offers.len(), 1);
    assert_eq!(rec.best_offer, Some(10));
    assert_eq!(query(&db, "offer_price").total, 1);
}

#[test]
fn unknown_operation_is_rejected_without_effect() {
    let mut db = Database::new();
    let r = db.index_event(event("transfer", "t1"), 1);
    assert_eq!(r, Err(OperationError::UnknownOperation));
    assert!(db.get(&"t1".to_string()).is_none());
    assert_eq!(query(&db, "all").total, 0);
}

#[test]
fn listing_without_price_lists_at_zero() {
    let mut db = Database::new();
    db.index_event(event("makeListing", "t1"), 5).unwrap();
    let rec = db.get(&"t1".to_string()).unwrap();
    assert_eq!(rec.price, Some(0));
    assert_eq!(rec.last_listing, Some(5));
    assert_eq!(query(&db, "listing_price").total, 1);
}

#[test]
fn page_size_defaults_and_clamps() {
    let mut db = Database::new();
    for i in 0..70u32 {
        db.index_event(mint(&format!("t{}", i), vec![]), u64::from(i)).unwrap();
    }
    let r = query(&db, "all");
    assert_eq!(r.total, 70);
    assert_eq!(r.data.len(), 10);
    assert_eq!(r.last_index, Some(60));
    let r = db.query(QueryRequest {
        sort_key: "all".to_string(),
        last_index: None,
        count: Some(100),
        traits: None,
        reverse: None,
    });
    assert_eq!(r.data.len(), 64);
    assert_eq!(r.last_index, Some(6));
}

#[test]
fn cursor_pages_through_the_index() {
    let mut db = Database::new();
    for i in 0..5u32 {
        db.index_event(mint(&format!("t{}", i), vec![]), u64::from(i)).unwrap();
    }
    // descending from the newest end, two at a time
    let r1 = db.query(QueryRequest {
        sort_key: "all".to_string(),
        last_index: None,
        count: Some(2),
        traits: None,
        reverse: None,
    });
    assert_eq!(r1.data[0].id, "t4");
    assert_eq!(r1.data[1].id, "t3");
    assert_eq!(r1.last_index, Some(3));
    let r2 = db.query(QueryRequest {
        sort_key: "all".to_string(),
        last_index: r1.last_index,
        count: Some(2),
        traits: None,
        reverse: None,
    });
    assert_eq!(r2.data[0].id, "t2");
    assert_eq!(r2.data[1].id, "t1");
    let r3 = db.query(QueryRequest {
        sort_key: "all".to_string(),
        last_index: r2.last_index,
        count: Some(2),
        traits: None,
        reverse: None,
    });
    assert_eq!(r3.data.len(), 1);
    assert_eq!(r3.data[0].id, "t0");
    assert_eq!(r3.last_index, None);
}

#[test]
fn snapshot_answers_every_query_alike() {
    let mut db = Database::new();
    db.index_event(
        mint("t1", vec![("color", GenericValue::TextContent("red".to_string()))]),
        1,
    )
    .unwrap();
    db.index_event(listing("t1", 100), 2).unwrap();
    db.index_event(listing("t2", 50), 3).unwrap();
    db.index_event(offer("t1", principal(1), 10), 4).unwrap();
    let mut sale = event("directBuy", "t2");
    sale.price = Some(45);
    db.index_event(sale, 5).unwrap();
    let copy = db.snapshot();
    for key in [
        "listing_price",
        "offer_price",
        "sale_price",
        "last_listing",
        "last_offer",
        "last_sale",
        "all",
    ] {
        for cursor in [None, Some(0), Some(1), Some(2)] {
            for reverse in [None, Some(true), Some(false)] {
                let make = || QueryRequest {
                    sort_key: key.to_string(),
                    last_index: cursor,
                    count: Some(3),
                    traits: None,
                    reverse,
                };
                let a = db.query(make());
                let b = copy.query(make());
                assert_eq!(a.total, b.total);
                assert_eq!(a.last_index, b.last_index);
                assert_eq!(a.error, b.error);
                assert_eq!(a.data.len(), b.data.len());
                for (x, y) in a.data.iter().zip(b.data.iter()) {
                    assert_eq!(x.id, y.id);
                    assert_eq!(x.price, y.price);
                    assert_eq!(x.best_offer, y.best_offer);
                }
            }
        }
    }
}

#[test]
fn ledger_rejects_foreign_canister() {
    let mut ledger = Ledger::new();
    let mut e = mint("t1", vec![]);
    e.nft_canister_id = principal(9);
    let r = insert(&mut ledger, e, 1);
    assert_eq!(r, Err(InsertError::WrongCanister));
    assert!(ledger.db.get(&"t1".to_string()).is_none());
}

#[test]
fn batch_insert_stops_at_first_bad_event() {
    let mut ledger = Ledger::new();
    let events = vec![
        mint("t1", vec![]),
        listing("t1", 10),
        event("teleport", "t1"),
        listing("t2", 20),
    ];
    let r = batch_insert(&mut ledger, events, 1);
    assert_eq!(r, Err(InsertError::UnknownOperation));
    // the prefix before the bad event stays applied
    assert_eq!(ledger.db.get(&"t1".to_string()).unwrap().price, Some(10));
    assert!(ledger.db.get(&"t2".to_string()).is_none());
}

#[test]
fn batch_insert_applies_all_valid_events() {
    let mut ledger = Ledger::new();
    let events = vec![mint("t1", vec![]), listing("t1", 10), offer("t1", principal(3), 5)];
    assert!(batch_insert(&mut ledger, events, 1).is_ok());
    let rec = ledger.db.get(&"t1".to_string()).unwrap();
    assert_eq!(rec.price, Some(10));
    assert_eq!(rec.best_offer, Some(5));
}

#[test]
fn ascending_cursor_pages_forward() {
    let mut db = Database::new();
    for i in 0..5u32 {
        db.index_event(mint(&format!("t{}", i), vec![]), u64::from(i)).unwrap();
    }
    let r1 = db.query(QueryRequest {
        sort_key: "all".to_string(),
        last_index: None,
        count: Some(2),
        traits: None,
        reverse: Some(true),
    });
    assert_eq!(r1.data[0].id, "t0");
    assert_eq!(r1.data[1].id, "t1");
    assert_eq!(r1.last_index, Some(2));
    let r2 = db.query(QueryRequest {
        sort_key: "all".to_string(),
        last_index: r1.last_index,
        count: Some(2),
        traits: None,
        reverse: Some(true),
    });
    assert_eq!(r2.data[0].id, "t2");
    assert_eq!(r2.data[1].id, "t3");
    let r3 = db.query(QueryRequest {
        sort_key: "all".to_string(),
        last_index: r2.last_index,
        count: Some(2),
        traits: None,
        reverse: Some(true),
    });
    assert_eq!(r3.data.len(), 1);
    assert_eq!(r3.data[0].id, "t4");
    assert_eq!(r3.last_index, None);
}

#[test]
fn filtered_scan_skips_other_tokens() {
    let mut db = Database::new();
    let red = || GenericValue::TextContent("red".to_string());
    for i in 0..6u32 {
        let color = if i % 2 == 0 { red() } else { GenericValue::TextContent("blue".to_string()) };
        db.index_event(mint(&format!("t{}", i), vec![("color", color)]), u64::from(i)).unwrap();
    }
    let r = db.query(QueryRequest {
        sort_key: "all".to_string(),
        last_index: None,
        count: Some(2),
        traits: Some(vec![("color".to_string(), red())]),
        reverse: None,
    });
    // descending from the newest end, taking only red tokens
    assert_eq!(r.total, 6);
    assert_eq!(r.data.len(), 2);
    assert_eq!(r.data[0].id, "t4");
    assert_eq!(r.data[1].id, "t2");
}

#[test]
fn sale_without_buyer_keeps_offers() {
    let mut db = Database::new();
    db.index_event(offer("t1", principal(1), 15), 1).unwrap();
    let mut sale = event("directBuy", "t1");
    sale.price = Some(40);
    db.index_event(sale, 2).unwrap();
    let rec = db.get(&"t1".to_string()).unwrap();
    assert_eq!(rec.offers.len(), 1);
    assert_eq!(rec.best_offer, Some(15));
    assert_eq!(query(&db, "offer_price").total, 1);
    assert_eq!(query(&db, "last_offer").total, 1);
}

#[test]
fn cancel_offer_without_buyer_removes_nothing() {
    let mut db = Database::new();
    db.index_event(offer("t1", principal(1), 15), 1).unwrap();
    db.index_event(event("cancelOffer", "t1"), 2).unwrap();
    let rec = db.get(&"t1".to_string()).unwrap();
    assert_eq!(rec.offers.len(), 1);
    assert_eq!(rec.best_offer, Some(15));
    assert_eq!(query(&db, "offer_price").total, 1);
}

#[test]
fn sale_without_price_records_zero() {
    let mut db = Database::new();
    db.index_event(event("acceptOffer", "t1"), 9).unwrap();
    let rec = db.get(&"t1".to_string()).unwrap();
    let s = rec.last_sale.as_ref().unwrap();
    assert_eq!(s.price, 0);
    assert_eq!(s.time, 9);
    assert_eq!(query(&db, "sale_price").total, 1);
}

#[test]
fn sale_price_orders_by_latest_sale() {
    let mut db = Database::new();
    for (token, price, t) in [("a", 30u64, 1u64), ("b", 10, 2), ("c", 20, 3)] {
        db.index_event(mint(token, vec![]), t).unwrap();
        let mut sale = event("directBuy", token);
        sale.price = Some(price);
        db.index_event(sale, t).unwrap();
    }
    let r = db.query(QueryRequest {
        sort_key: "sale_price".to_string(),
        last_index: None,
        count: None,
        traits: None,
        reverse: Some(true),
    });
    let ids: Vec<&str> = r.data.iter().map(|t| t.id.as_str()).collect();
    assert_eq!(ids, vec!["b", "c", "a"]);
    // a second, cheaper sale of "a" repositions it to the front
    let mut sale = event("directBuy", "a");
    sale.price = Some(5);
    db.index_event(sale, 4).unwrap();
    let r = db.query(QueryRequest {
        sort_key: "sale_price".to_string(),
        last_index: None,
        count: None,
        traits: None,
        reverse: Some(true),
    });
    let ids: Vec<&str> = r.data.iter().map(|t| t.id.as_str()).collect();
    assert_eq!(ids, vec!["a", "b", "c"]);
}

#[test]
fn cancel_listing_clears_listing_state() {
    let mut db = Database::new();
    db.index_event(listing("t1", 100), 1).unwrap();
    db.index_event(event("cancelListing", "t1"), 2).unwrap();
    let rec = db.get(&"t1".to_string()).unwrap();
    assert!(rec.price.is_none());
    assert_eq!(query(&db, "listing_price").total, 0);
    assert_eq!(query(&db, "last_listing").total, 0);
    assert_eq!(query(&db, "all").total, 1);
}

#[test]
fn trait_values_and_principals_compare_by_content() {
    let a = GenericValue::NestedContent(vec![(
        "kind".to_string(),
        GenericValue::TextContent("gem".to_string()),
    )]);
    let b = GenericValue::NestedContent(vec![(
        "kind".to_string(),
        GenericValue::TextContent("gem".to_string()),
    )]);
    assert!(a == b);
    assert!(a != GenericValue::BoolContent(true));
    assert!(principal(3) == principal(3));
    assert!(principal(3) != principal(4));
}

#[test]
fn equal_price_listings_insert_before_their_ties() {
    let mut db = Database::new();
    for t in ["a", "b", "c"] {
        db.index_event(mint(t, vec![]), 1).unwrap();
    }
    db.index_event(listing("a", 30), 2).unwrap();
    db.index_event(listing("b", 10), 3).unwrap();
    // a new listing lands at the first position whose price is >= its own
    db.index_event(listing("c", 10), 4).unwrap();
    let r = db.query(QueryRequest {
        sort_key: "listing_price".to_string(),
        last_index: None,
        count: None,
        traits: None,
        reverse: Some(true),
    });
    let ids: Vec<&str> = r.data.iter().map(|t| t.id.as_str()).collect();
    assert_eq!(ids, vec!["c", "b", "a"]);
}

#[test]
fn repositioning_keeps_equal_price_order() {
    let mut db = Database::new();
    for t in ["a", "b", "c"] {
        db.index_event(mint(t, vec![]), 1).unwrap();
    }
    db.index_event(listing("a", 30), 2).unwrap();
    db.index_event(listing("b", 10), 3).unwrap();
    db.index_event(listing("c", 10), 4).unwrap();
    // index is [c, b, a]; relisting a at 7 resorts the whole index, and the
    // tied pair c, b must keep its prior relative order
    db.index_event(listing("a", 7), 5).unwrap();
    let r = db.query(QueryRequest {
        sort_key: "listing_price".to_string(),
        last_index: None,
        count: None,
        traits: None,
        reverse: Some(true),
    });
    let ids: Vec<&str> = r.data.iter().map(|t| t.id.as_str()).collect();
    assert_eq!(ids, vec!["a", "c", "b"]);
}

#[test]
fn unknown_token_is_absent() {
    let db = Database::new();
    assert!(db.get(&"nobody".to_string()).is_none());
}
