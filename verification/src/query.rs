use crate::db::Database;
use crate::indexes::index_contains;
use crate::model::{
    ids_view, lemma_traits_find_absent, lemma_traits_find_at, lemma_value_sets_find_absent,
    lemma_value_sets_find_at, trait_sets_of, traits_map, DbView,
};
use crate::store::{store_get, tm_wf};
use crate::types::{
    lemma_nested_pairs_view, nested_pairs_view, parse_sort_key, spec_parse_sort_key, value_eq,
    GenericValue, QueryError, QueryRequest, QueryRequestView, QueryResponse, QueryResponseView,
    SortKey, TokenData, TokenView, ValueView, DEFAULT_PAGE_SIZE, PAGE_SIZE_LIMIT,
};
use vstd::prelude::*;

verus! {

broadcast use vstd::std_specs::vec::group_vec_axioms;

/// The Sort Index a sort key addresses.
pub open spec fn spec_sort_index(d: DbView, key: SortKey) -> Seq<Seq<char>> {
    match key {
        SortKey::ListingPrice => d.listing_price,
        SortKey::OfferPrice => d.offer_price,
        SortKey::SalePrice => d.sale_price,
        SortKey::LastListing => d.last_listing,
        SortKey::LastOffer => d.last_offer,
        SortKey::LastSale => d.last_sale,
        SortKey::All => d.all_tokens,
    }
}

/// The page size a query works with: the requested count, defaulted to ten
/// and clamped to sixty-four.
pub open spec fn spec_page_size(count: Option<usize>) -> usize {
    let n = match count {
        Some(n) => n,
        None => DEFAULT_PAGE_SIZE,
    };
    if n > PAGE_SIZE_LIMIT {
        PAGE_SIZE_LIMIT
    } else {
        n
    }
}

/// Whether a token passes the trait filters: the filters are OR'd, so one
/// matching (name, value) pair accepts the token.
pub open spec fn is_accepted(
    d: DbView,
    pairs: Seq<(Seq<char>, ValueView)>,
    tok: Seq<char>,
) -> bool {
    exists|k: int|
        0 <= k < pairs.len() && trait_sets_of(d.trait_maps, #[trigger] pairs[k].0, pairs[k].1).contains(
            tok,
        )
}

/// Whether the supplied trait filters match nothing at all.
pub open spec fn no_matches(d: DbView, pairs: Seq<(Seq<char>, ValueView)>) -> bool {
    forall|k: int|
        0 <= k < pairs.len() ==> trait_sets_of(d.trait_maps, #[trigger] pairs[k].0, pairs[k].1).len()
            == 0
}

/// Whether a token at one scan position is taken into the page.
pub open spec fn passes_filter(
    d: DbView,
    filt: Option<Seq<(Seq<char>, ValueView)>>,
    tok: Seq<char>,
) -> bool {
    match filt {
        None => true,
        Some(pairs) => is_accepted(d, pairs, tok),
    }
}

/// The descending scan: walk the Sort Index downward from the cursor, skip
/// filtered-out identifiers and identifiers without a record, collect up to
/// `remaining` records, and report the position the scan stopped at.
pub open spec fn spec_scan_desc(
    d: DbView,
    ids: Seq<Seq<char>>,
    idx: int,
    remaining: int,
    filt: Option<Seq<(Seq<char>, ValueView)>>,
) -> (Seq<TokenView>, int)
    decreases idx,
{
    if remaining <= 0 || idx <= 0 {
        (Seq::empty(), idx)
    } else {
        let tok = ids[idx - 1];
        if passes_filter(d, filt, tok) && d.store.contains_key(tok) {
            let rest = spec_scan_desc(d, ids, idx - 1, remaining - 1, filt);
            (seq![d.store[tok]] + rest.0, rest.1)
        } else {
            spec_scan_desc(d, ids, idx - 1, remaining, filt)
        }
    }
}

/// The ascending scan: the same walk, upward from the cursor to the end of
/// the Sort Index.
pub open spec fn spec_scan_asc(
    d: DbView,
    ids: Seq<Seq<char>>,
    idx: int,
    remaining: int,
    filt: Option<Seq<(Seq<char>, ValueView)>>,
) -> (Seq<TokenView>, int)
    decreases ids.len() - idx,
{
    if remaining <= 0 || idx >= ids.len() {
        (Seq::empty(), idx)
    } else {
        let tok = ids[idx];
        if passes_filter(d, filt, tok) && d.store.contains_key(tok) {
            let rest = spec_scan_asc(d, ids, idx + 1, remaining - 1, filt);
            (seq![d.store[tok]] + rest.0, rest.1)
        } else {
            spec_scan_asc(d, ids, idx + 1, remaining, filt)
        }
    }
}

/// What a query returns, in full: the addressed Sort Index, the defaulted
/// and clamped page size, the OR'd trait filters, the bounds check on the
/// cursor, the scan in the chosen direction, and the cursor for the next
/// page, absent once the scan reached the index's natural end.
pub open spec fn spec_query(d: DbView, req: QueryRequestView) -> QueryResponseView {
    match spec_parse_sort_key(req.sort_key) {
        None => QueryResponseView {
            total: 0,
            last_index: None,
            data: Seq::empty(),
            error: Some(QueryError::SortKeyNotFound),
        },
        Some(key) => {
            let ids = spec_sort_index(d, key);
            let size = spec_page_size(req.count);
            if req.traits is Some && no_matches(d, req.traits.unwrap()) {
                QueryResponseView {
                    total: 0,
                    last_index: None,
                    data: Seq::empty(),
                    error: Some(QueryError::NoMatchingEntries),
                }
            } else {
                let reverse = match req.reverse {
                    Some(b) => b,
                    None => false,
                };
                if !reverse {
                    let cur = match req.last_index {
                        Some(c) => c as int,
                        None => ids.len() as int,
                    };
                    if cur > ids.len() {
                        QueryResponseView {
                            total: 0,
                            last_index: None,
                            data: Seq::empty(),
                            error: Some(QueryError::PageOutOfBounds),
                        }
                    } else {
                        let scan = spec_scan_desc(d, ids, cur, size as int, req.traits);
                        QueryResponseView {
                            total: ids.len() as usize,
                            last_index: if scan.1 > 0 {
                                Some(scan.1 as usize)
                            } else {
                                None
                            },
                            data: scan.0,
                            error: None,
                        }
                    }
                } else {
                    let cur = match req.last_index {
                        Some(c) => c as int,
                        None => 0int,
                    };
                    if cur > ids.len() {
                        QueryResponseView {
                            total: 0,
                            last_index: None,
                            data: Seq::empty(),
                            error: Some(QueryError::PageOutOfBounds),
                        }
                    } else {
                        let scan = spec_scan_asc(d, ids, cur, size as int, req.traits);
                        QueryResponseView {
                            total: ids.len() as usize,
                            last_index: if scan.1 < ids.len() {
                                Some(scan.1 as usize)
                            } else {
                                None
                            },
                            data: scan.0,
                            error: None,
                        }
                    }
                }
            }
        },
    }
}


/// The identifiers filed under one (name, value) pair, straight from the
/// Trait Filter Maps' representation.
#[verifier::loop_isolation(false)]
fn find_trait_sets<'a>(
    tm: &'a Vec<(String, Vec<(GenericValue, Vec<String>)>)>,
    name: &String,
    value: &GenericValue,
) -> (r: Option<&'a Vec<String>>)
    requires
        tm_wf(tm@),
    ensures
        match r {
            Some(v) => trait_sets_of(traits_map(tm@), name@, value@) == ids_view(v@),
            None => trait_sets_of(traits_map(tm@), name@, value@) == Seq::<Seq<char>>::empty(),
        },
{
    let mut j: usize = 0;
    while j < tm.len()
        invariant
            0 <= j <= tm.len(),
            forall|t: int| 0 <= t < j ==> (#[trigger] tm@[t]).0@ != name@,
        decreases tm.len() - j,
    {
        if tm[j].0 == *name {
            proof {
                lemma_traits_find_at(tm@, j as int);
            }
            let entries = &tm[j].1;
            let mut k: usize = 0;
            while k < entries.len()
                invariant
                    0 <= k <= entries.len(),
                    forall|t: int| 0 <= t < k ==> (#[trigger] entries@[t]).0@ != value@,
                decreases entries.len() - k,
            {
                if value_eq(&entries[k].0, value) {
                    proof {
                        lemma_value_sets_find_at(entries@, k as int);
                    }
                    return Some(&entries[k].1);
                }
                k += 1;
            }
            proof {
                lemma_value_sets_find_absent(entries@, value@);
            }
            return None;
        }
        j += 1;
    }
    proof {
        lemma_traits_find_absent(tm@, name@);
    }
    None
}

/// The union of the trait sets the request's filter pairs address: the
/// accepted identifiers, each pair contributing its whole set.
#[verifier::loop_isolation(false)]
fn build_accepted(
    tm: &Vec<(String, Vec<(GenericValue, Vec<String>)>)>,
    pairs: &Vec<(String, GenericValue)>,
) -> (r: Vec<String>)
    requires
        tm_wf(tm@),
    ensures
        forall|x: Seq<char>|
            #[trigger] ids_view(r@).contains(x) <==> (exists|k: int|
                0 <= k < nested_pairs_view(pairs@).len() && trait_sets_of(
                    traits_map(tm@),
                    (#[trigger] nested_pairs_view(pairs@)[k]).0,
                    nested_pairs_view(pairs@)[k].1,
                ).contains(x)),
        (r@.len() == 0) == (forall|k: int|
            0 <= k < nested_pairs_view(pairs@).len() ==> trait_sets_of(
                traits_map(tm@),
                (#[trigger] nested_pairs_view(pairs@)[k]).0,
                nested_pairs_view(pairs@)[k].1,
            ).len() == 0),
{
    let ghost pv = nested_pairs_view(pairs@);
    proof {
        lemma_nested_pairs_view(pairs@);
    }
    let mut r: Vec<String> = Vec::new();
    let mut i: usize = 0;
    while i < pairs.len()
        invariant
            0 <= i <= pairs.len(),
            forall|x: Seq<char>|
                #[trigger] ids_view(r@).contains(x) <==> (exists|k: int|
                    0 <= k < i && trait_sets_of(
                        traits_map(tm@),
                        (#[trigger] pv[k]).0,
                        pv[k].1,
                    ).contains(x)),
            (r@.len() == 0) == (forall|k: int|
                0 <= k < i ==> trait_sets_of(
                    traits_map(tm@),
                    (#[trigger] pv[k]).0,
                    pv[k].1,
                ).len() == 0),
        decreases pairs.len() - i,
    {
        match find_trait_sets(tm, &pairs[i].0, &pairs[i].1) {
            Some(ids) => {
                let ghost set = trait_sets_of(traits_map(tm@), pv[i as int].0, pv[i as int].1);
                let mut t: usize = 0;
                while t < ids.len()
                    invariant
                        0 <= t <= ids.len(),
                        forall|x: Seq<char>|
                            #[trigger] ids_view(r@).contains(x) <==> ((exists|k: int|
                                0 <= k < i && trait_sets_of(
                                    traits_map(tm@),
                                    (#[trigger] pv[k]).0,
                                    pv[k].1,
                                ).contains(x)) || (exists|u: int| 0 <= u < t && set[u] == x)),
                        r@.len() == 0 ==> t == 0,
                        (r@.len() == 0) == ((forall|k: int|
                            0 <= k < i ==> trait_sets_of(
                                traits_map(tm@),
                                (#[trigger] pv[k]).0,
                                pv[k].1,
                            ).len() == 0) && t == 0),
                    decreases ids.len() - t,
                {
                    let ghost prev = r@;
                    r.push(ids[t].clone());
                    proof {
                        assert(ids_view(r@) =~= ids_view(prev).push(set[t as int]));
                        assert forall|x: Seq<char>|
                            #[trigger] ids_view(r@).contains(x) <==> ((exists|k: int|
                                0 <= k < i && trait_sets_of(
                                    traits_map(tm@),
                                    (#[trigger] pv[k]).0,
                                    pv[k].1,
                                ).contains(x)) || (exists|u: int|
                                0 <= u < t + 1 && set[u] == x)) by {
                            if ids_view(r@).contains(x) {
                                let w = choose|w: int|
                                    0 <= w < ids_view(r@).len() && ids_view(r@)[w] == x;
                                if w < ids_view(prev).len() {
                                    assert(ids_view(prev)[w] == x);
                                    assert(ids_view(prev).contains(x));
                                } else {
                                    assert(x == set[t as int]);
                                }
                            }
                            if exists|k: int|
                                0 <= k < i && trait_sets_of(
                                    traits_map(tm@),
                                    (#[trigger] pv[k]).0,
                                    pv[k].1,
                                ).contains(x) {
                                assert(ids_view(prev).contains(x));
                                let w = choose|w: int|
                                    0 <= w < ids_view(prev).len() && ids_view(prev)[w] == x;
                                assert(ids_view(r@)[w] == x);
                                assert(ids_view(r@).contains(x));
                            }
                            if exists|u: int| 0 <= u < t + 1 && set[u] == x {
                                let u = choose|u: int| 0 <= u < t + 1 && set[u] == x;
                                if u < t {
                                    assert(ids_view(prev).contains(x));
                                    let w = choose|w: int|
                                        0 <= w < ids_view(prev).len() && ids_view(prev)[w] == x;
                                    assert(ids_view(r@)[w] == x);
                                } else {
                                    assert(ids_view(r@)[ids_view(r@).len() - 1] == x);
                                }
                                assert(ids_view(r@).contains(x));
                            }
                        }
                        assert(ids_view(r@).len() > 0);
                    }
                    t += 1;
                }
                proof {
                    assert(set.len() == ids@.len());
                    assert forall|x: Seq<char>|
                        (exists|u: int| 0 <= u < set.len() && set[u] == x) <==> set.contains(
                        x,
                    ) by {}
                }
            },
            None => {
                proof {
                    assert(trait_sets_of(traits_map(tm@), pv[i as int].0, pv[i as int].1).len()
                        == 0);
                }
            },
        }
        i += 1;
    }
    r
}


impl Database {
    /// Answers one paginated query over the index, exactly as `spec_query`
    /// states: the request's sort key picks the Sort Index, trait filters
    /// are OR'd into an accepted set, the cursor is bounds-checked, and the
    /// scan collects up to the page size in the chosen direction.  Every
    /// error is reported in the result, never thrown.
    #[verifier::loop_isolation(false)]
    #[verifier::rlimit(60)]
    pub fn query(&self, request: QueryRequest) -> (r: QueryResponse)
        requires
            self.wf(),
        ensures
            r@ == spec_query(self@, request@),
    {
        let ghost d = self@;
        let ghost spec_resp = spec_query(d, request@);
        let key = match parse_sort_key(&request.sort_key) {
            Some(k) => k,
            None => {
                let resp = QueryResponse {
                    total: 0,
                    last_index: None,
                    data: Vec::new(),
                    error: Some(QueryError::SortKeyNotFound),
                };
                proof {
                    assert(resp@.data =~= spec_resp.data);
                }
                return resp;
            },
        };
        let mut size: usize = match request.count {
            Some(n) => n,
            None => DEFAULT_PAGE_SIZE,
        };
        if size > PAGE_SIZE_LIMIT {
            size = PAGE_SIZE_LIMIT;
        }
        let ghost filt = request@.traits;
        let accepted: Option<Vec<String>> = match &request.traits {
            Some(pairs) => {
                proof {
                    lemma_nested_pairs_view(pairs@);
                }
                Some(build_accepted(&self.trait_maps, pairs))
            },
            None => None,
        };
        match &accepted {
            Some(acc) => {
                if acc.len() == 0 {
                    let resp = QueryResponse {
                        total: 0,
                        last_index: None,
                        data: Vec::new(),
                        error: Some(QueryError::NoMatchingEntries),
                    };
                    proof {
                        assert(no_matches(d, filt.unwrap()));
                        assert(resp@.data =~= spec_resp.data);
                    }
                    return resp;
                }
                proof {
                    assert(ids_view(acc@).len() > 0);
                    assert(ids_view(acc@).contains(ids_view(acc@)[0]));
                    assert(!no_matches(d, filt.unwrap())) by {
                        let x = ids_view(acc@)[0];
                        let k = choose|k: int|
                            0 <= k < filt.unwrap().len() && trait_sets_of(
                                d.trait_maps,
                                (#[trigger] filt.unwrap()[k]).0,
                                filt.unwrap()[k].1,
                            ).contains(x);
                        assert(trait_sets_of(
                            d.trait_maps,
                            filt.unwrap()[k].0,
                            filt.unwrap()[k].1,
                        ).len() > 0);
                    }
                }
            },
            None => {},
        }
        let sorted: &Vec<String> = match key {
            SortKey::ListingPrice => &self.listing_price,
            SortKey::OfferPrice => &self.offer_price,
            SortKey::SalePrice => &self.sale_price,
            SortKey::LastListing => &self.last_listing,
            SortKey::LastOffer => &self.last_offer,
            SortKey::LastSale => &self.last_sale,
            SortKey::All => &self.all_tokens,
        };
        let ghost ids = spec_sort_index(d, key);
        proof {
            assert(ids_view(sorted@) == ids);
        }
        let max_len = sorted.len();
        let reverse = match request.reverse {
            Some(b) => b,
            None => false,
        };
        if !reverse {
            let last_index = match request.last_index {
                Some(c) => c,
                None => max_len,
            };
            if last_index > max_len {
                let resp = QueryResponse {
                    total: 0,
                    last_index: None,
                    data: Vec::new(),
                    error: Some(QueryError::PageOutOfBounds),
                };
                proof {
                    assert(resp@.data =~= spec_resp.data);
                }
                return resp;
            }
            let ghost target = spec_scan_desc(d, ids, last_index as int, size as int, filt);
            let mut result: Vec<TokenData> = Vec::new();
            let mut scanned: usize = 0;
            let mut index: usize = last_index;
            while scanned < size && index > 0
                invariant
                    0 <= scanned <= size,
                    0 <= index <= max_len,
                    target == (
                        result@.map_values(|t: TokenData| t@) + spec_scan_desc(
                            d,
                            ids,
                            index as int,
                            size - scanned,
                            filt,
                        ).0,
                        spec_scan_desc(d, ids, index as int, size - scanned, filt).1,
                    ),
                decreases index,
            {
                let ghost rem = size - scanned;
                index -= 1;
                let token = &sorted[index];
                proof {
                    assert(ids[index as int] == token@);
                }
                let ok = match &accepted {
                    None => true,
                    Some(acc) => index_contains(acc, token),
                };
                proof {
                    assert(ok == passes_filter(d, filt, token@));
                }
                let ghost prev = result@.map_values(|t: TokenData| t@);
                if ok {
                    match store_get(&self.db, token) {
                        Some(td) => {
                            result.push(td.clone());
                            scanned += 1;
                            proof {
                                assert(result@.map_values(|t: TokenData| t@) =~= prev.push(
                                    d.store[token@],
                                ));
                                assert(prev + (seq![d.store[token@]] + spec_scan_desc(
                                    d,
                                    ids,
                                    index as int,
                                    rem - 1,
                                    filt,
                                ).0) =~= prev.push(d.store[token@]) + spec_scan_desc(
                                    d,
                                    ids,
                                    index as int,
                                    rem - 1,
                                    filt,
                                ).0);
                            }
                        },
                        None => {
                            proof {
                                assert(!d.store.contains_key(token@));
                            }
                        },
                    }
                }
            }
            proof {
                if scanned == size {
                    assert(spec_scan_desc(d, ids, index as int, 0, filt) == (
                        Seq::<TokenView>::empty(),
                        index as int,
                    ));
                } else {
                    assert(index == 0);
                }
                assert(result@.map_values(|t: TokenData| t@) + Seq::<TokenView>::empty()
                    =~= result@.map_values(|t: TokenData| t@));
                assert(target.0 == result@.map_values(|t: TokenData| t@));
                assert(target.1 == index as int);
            }
            let resp = QueryResponse {
                total: max_len,
                last_index: if index > 0 {
                    Some(index)
                } else {
                    None
                },
                data: result,
                error: None,
            };
            proof {
                assert(resp@ == spec_resp);
            }
            resp
        } else {
            let last_index = match request.last_index {
                Some(c) => c,
                None => 0,
            };
            if last_index > max_len {
                let resp = QueryResponse {
                    total: 0,
                    last_index: None,
                    data: Vec::new(),
                    error: Some(QueryError::PageOutOfBounds),
                };
                proof {
                    assert(resp@.data =~= spec_resp.data);
                }
                return resp;
            }
            let ghost target = spec_scan_asc(d, ids, last_index as int, size as int, filt);
            let mut result: Vec<TokenData> = Vec::new();
            let mut scanned: usize = 0;
            let mut index: usize = last_index;
            while scanned < size && index < max_len
                invariant
                    0 <= scanned <= size,
                    0 <= index <= max_len,
                    target == (
                        result@.map_values(|t: TokenData| t@) + spec_scan_asc(
                            d,
                            ids,
                            index as int,
                            size - scanned,
                            filt,
                        ).0,
                        spec_scan_asc(d, ids, index as int, size - scanned, filt).1,
                    ),
                decreases max_len - index,
            {
                let ghost rem = size - scanned;
                let token = &sorted[index];
                proof {
                    assert(ids[index as int] == token@);
                }
                let ok = match &accepted {
                    None => true,
                    Some(acc) => index_contains(acc, token),
                };
                proof {
                    assert(ok == passes_filter(d, filt, token@));
                }
                let ghost prev = result@.map_values(|t: TokenData| t@);
                if ok {
                    match store_get(&self.db, token) {
                        Some(td) => {
                            result.push(td.clone());
                            scanned += 1;
                            proof {
                                assert(result@.map_values(|t: TokenData| t@) =~= prev.push(
                                    d.store[token@],
                                ));
                                assert(prev + (seq![d.store[token@]] + spec_scan_asc(
                                    d,
                                    ids,
                                    index + 1,
                                    rem - 1,
                                    filt,
                                ).0) =~= prev.push(d.store[token@]) + spec_scan_asc(
                                    d,
                                    ids,
                                    index + 1,
                                    rem - 1,
                                    filt,
                                ).0);
                            }
                        },
                        None => {
                            proof {
                                assert(!d.store.contains_key(token@));
                            }
                        },
                    }
                }
                index += 1;
            }
            proof {
                if scanned == size {
                    assert(spec_scan_asc(d, ids, index as int, 0, filt) == (
                        Seq::<TokenView>::empty(),
                        index as int,
                    ));
                } else {
                    assert(index == max_len);
                }
                assert(result@.map_values(|t: TokenData| t@) + Seq::<TokenView>::empty()
                    =~= result@.map_values(|t: TokenData| t@));
                assert(target.0 == result@.map_values(|t: TokenData| t@));
                assert(target.1 == index as int);
            }
            let resp = QueryResponse {
                total: max_len,
                last_index: if index < max_len {
                    Some(index)
                } else {
                    None
                },
                data: result,
                error: None,
            };
            proof {
                assert(resp@ == spec_resp);
            }
            resp
        }
    }
}

} // verus!
