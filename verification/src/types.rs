use vstd::prelude::*;

verus! {

broadcast use vstd::std_specs::vec::group_vec_axioms;

/// Number of records a query returns when the request names no count.
pub const DEFAULT_PAGE_SIZE: usize = 10;

/// A page of results never holds more records than this.
pub const PAGE_SIZE_LIMIT: usize = 64;

/// An opaque account or canister identifier: a short byte string with
/// equality. Prices and timestamps are plain unsigned integers; this is
/// the one identity type the index compares.
pub struct Principal {
    pub bytes: Vec<u8>,
}

impl View for Principal {
    type V = Seq<u8>;

    open spec fn view(&self) -> Seq<u8> {
        self.bytes@
    }
}

impl Principal {
    /// The identifier an event's missing buyer defaults to.
    pub fn anonymous() -> (p: Principal)
        ensures
            p@ == seq![4u8],
    {
        Principal { bytes: vec![4u8] }
    }

    /// The identifier a missing payment asset defaults to: the empty byte string.
    pub fn management_canister() -> (p: Principal)
        ensures
            p@ == Seq::<u8>::empty(),
    {
        Principal { bytes: Vec::new() }
    }

    pub fn from_bytes(bytes: Vec<u8>) -> (p: Principal)
        ensures
            p@ == bytes@,
    {
        Principal { bytes }
    }

    pub fn eq_bytes(&self, other: &Principal) -> (r: bool)
        ensures
            r == (self@ == other@),
    {
        let mut i: usize = 0;
        if self.bytes.len() != other.bytes.len() {
            return false;
        }
        while i < self.bytes.len()
            invariant
                0 <= i <= self.bytes.len(),
                self.bytes.len() == other.bytes.len(),
                forall|j: int| 0 <= j < i ==> self.bytes@[j] == other.bytes@[j],
            decreases self.bytes.len() - i,
        {
            if self.bytes[i] != other.bytes[i] {
                return false;
            }
            i += 1;
        }
        proof {
            assert(self@ =~= other@);
        }
        true
    }
}

impl PartialEq for Principal {
    fn eq(&self, other: &Principal) -> (r: bool) {
        self.eq_bytes(other)
    }
}

impl vstd::std_specs::cmp::PartialEqSpecImpl for Principal {
    open spec fn obeys_eq_spec() -> bool {
        true
    }

    open spec fn eq_spec(&self, other: &Principal) -> bool {
        self@ == other@
    }
}

impl Clone for Principal {
    fn clone(&self) -> (r: Self)
        ensures
            r@ == self@,
    {
        Principal { bytes: clone_bytes(&self.bytes) }
    }
}

pub fn clone_bytes(v: &Vec<u8>) -> (r: Vec<u8>)
    ensures
        r@ == v@,
{
    let mut r: Vec<u8> = Vec::new();
    let mut i: usize = 0;
    while i < v.len()
        invariant
            0 <= i <= v.len(),
            r@ == v@.take(i as int),
        decreases v.len() - i,
    {
        r.push(v[i]);
        proof {
            assert(r@ =~= v@.take(i + 1 as int));
        }
        i += 1;
    }
    proof {
        assert(v@.take(v@.len() as int) =~= v@);
    }
    r
}

/// A trait value attached to a token at mint: a closed tagged union with
/// equality, used as a key of the Trait Filter Maps.
pub enum GenericValue {
    BoolContent(bool),
    TextContent(String),
    BlobContent(Vec<u8>),
    Principal(Principal),
    Nat8Content(u8),
    Nat16Content(u16),
    Nat32Content(u32),
    Nat64Content(u64),
    NatContent(u128),
    Int8Content(i8),
    Int16Content(i16),
    Int32Content(i32),
    Int64Content(i64),
    NestedContent(Vec<(String, GenericValue)>),
}

/// The mathematical value of a `GenericValue`: the same tree with every
/// string and byte blob abstracted to its sequence.
pub enum ValueView {
    Bool(bool),
    Text(Seq<char>),
    Blob(Seq<u8>),
    Principal(Seq<u8>),
    Nat8(u8),
    Nat16(u16),
    Nat32(u32),
    Nat64(u64),
    Nat(u128),
    Int8(i8),
    Int16(i16),
    Int32(i32),
    Int64(i64),
    Nested(Seq<(Seq<char>, ValueView)>),
}

impl View for GenericValue {
    type V = ValueView;

    open spec fn view(&self) -> ValueView
        decreases self,
    {
        match self {
            GenericValue::BoolContent(b) => ValueView::Bool(*b),
            GenericValue::TextContent(s) => ValueView::Text(s@),
            GenericValue::BlobContent(b) => ValueView::Blob(b@),
            GenericValue::Principal(p) => ValueView::Principal(p@),
            GenericValue::Nat8Content(n) => ValueView::Nat8(*n),
            GenericValue::Nat16Content(n) => ValueView::Nat16(*n),
            GenericValue::Nat32Content(n) => ValueView::Nat32(*n),
            GenericValue::Nat64Content(n) => ValueView::Nat64(*n),
            GenericValue::NatContent(n) => ValueView::Nat(*n),
            GenericValue::Int8Content(n) => ValueView::Int8(*n),
            GenericValue::Int16Content(n) => ValueView::Int16(*n),
            GenericValue::Int32Content(n) => ValueView::Int32(*n),
            GenericValue::Int64Content(n) => ValueView::Int64(*n),
            GenericValue::NestedContent(pairs) => ValueView::Nested(nested_pairs_view(pairs@)),
        }
    }
}

/// The view of a list of named trait values, pairwise.
pub open spec fn nested_pairs_view(pairs: Seq<(String, GenericValue)>) -> Seq<
    (Seq<char>, ValueView),
>
    decreases pairs,
{
    if pairs.len() == 0 {
        Seq::empty()
    } else {
        seq![(pairs[0].0@, pairs[0].1@)] + nested_pairs_view(pairs.skip(1))
    }
}

pub fn bytes_eq(a: &Vec<u8>, b: &Vec<u8>) -> (r: bool)
    ensures
        r == (a@ == b@),
{
    if a.len() != b.len() {
        return false;
    }
    let mut i: usize = 0;
    while i < a.len()
        invariant
            0 <= i <= a.len(),
            a.len() == b.len(),
            forall|j: int| 0 <= j < i ==> a@[j] == b@[j],
        decreases a.len() - i,
    {
        if a[i] != b[i] {
            return false;
        }
        i += 1;
    }
    proof {
        assert(a@ =~= b@);
    }
    true
}

/// Equality of trait values: two values are equal when their views are.
#[verifier::loop_isolation(false)]
pub fn value_eq(a: &GenericValue, b: &GenericValue) -> (r: bool)
    ensures
        r == (a@ == b@),
    decreases *a,
{
    match (a, b) {
        (GenericValue::BoolContent(x), GenericValue::BoolContent(y)) => *x == *y,
        (GenericValue::TextContent(x), GenericValue::TextContent(y)) => *x == *y,
        (GenericValue::BlobContent(x), GenericValue::BlobContent(y)) => bytes_eq(x, y),
        (GenericValue::Principal(x), GenericValue::Principal(y)) => x.eq_bytes(y),
        (GenericValue::Nat8Content(x), GenericValue::Nat8Content(y)) => *x == *y,
        (GenericValue::Nat16Content(x), GenericValue::Nat16Content(y)) => *x == *y,
        (GenericValue::Nat32Content(x), GenericValue::Nat32Content(y)) => *x == *y,
        (GenericValue::Nat64Content(x), GenericValue::Nat64Content(y)) => *x == *y,
        (GenericValue::NatContent(x), GenericValue::NatContent(y)) => *x == *y,
        (GenericValue::Int8Content(x), GenericValue::Int8Content(y)) => *x == *y,
        (GenericValue::Int16Content(x), GenericValue::Int16Content(y)) => *x == *y,
        (GenericValue::Int32Content(x), GenericValue::Int32Content(y)) => *x == *y,
        (GenericValue::Int64Content(x), GenericValue::Int64Content(y)) => *x == *y,
        (GenericValue::NestedContent(xs), GenericValue::NestedContent(ys)) => {
            proof {
                lemma_nested_pairs_view(xs@);
                lemma_nested_pairs_view(ys@);
            }
            if xs.len() != ys.len() {
                proof {
                    assert(nested_pairs_view(xs@).len() != nested_pairs_view(ys@).len());
                }
                return false;
            }
            let mut i: usize = 0;
            while i < xs.len()
                invariant
                    0 <= i <= xs.len(),
                    xs.len() == ys.len(),
                    nested_pairs_view(xs@).len() == xs@.len(),
                    nested_pairs_view(ys@).len() == ys@.len(),
                    forall|j: int|
                        0 <= j < xs@.len() ==> #[trigger] nested_pairs_view(xs@)[j] == (
                        xs@[j].0@,
                        xs@[j].1@,
                        ),
                    forall|j: int|
                        0 <= j < ys@.len() ==> #[trigger] nested_pairs_view(ys@)[j] == (
                        ys@[j].0@,
                        ys@[j].1@,
                        ),
                    forall|j: int|
                        0 <= j < i ==> #[trigger] nested_pairs_view(xs@)[j] == nested_pairs_view(
                            ys@,
                        )[j],
                decreases xs.len() - i,
            {
                let names_match = xs[i].0 == ys[i].0;
                if !names_match {
                    proof {
                        assert(nested_pairs_view(xs@)[i as int] != nested_pairs_view(
                            ys@,
                        )[i as int]);
                    }
                    return false;
                }
                if !value_eq(&xs[i].1, &ys[i].1) {
                    proof {
                        assert(nested_pairs_view(xs@)[i as int] != nested_pairs_view(
                            ys@,
                        )[i as int]);
                    }
                    return false;
                }
                i += 1;
            }
            proof {
                assert(nested_pairs_view(xs@) =~= nested_pairs_view(ys@));
            }
            true
        },
        _ => {
            proof {
                assert(a@ != b@);
            }
            false
        },
    }
}

/// A copy of a trait value with the same view.
#[verifier::loop_isolation(false)]
pub fn clone_value(v: &GenericValue) -> (r: GenericValue)
    ensures
        r@ == v@,
    decreases *v,
{
    match v {
        GenericValue::BoolContent(x) => GenericValue::BoolContent(*x),
        GenericValue::TextContent(x) => GenericValue::TextContent(x.clone()),
        GenericValue::BlobContent(x) => GenericValue::BlobContent(clone_bytes(x)),
        GenericValue::Principal(x) => GenericValue::Principal(x.clone()),
        GenericValue::Nat8Content(x) => GenericValue::Nat8Content(*x),
        GenericValue::Nat16Content(x) => GenericValue::Nat16Content(*x),
        GenericValue::Nat32Content(x) => GenericValue::Nat32Content(*x),
        GenericValue::Nat64Content(x) => GenericValue::Nat64Content(*x),
        GenericValue::NatContent(x) => GenericValue::NatContent(*x),
        GenericValue::Int8Content(x) => GenericValue::Int8Content(*x),
        GenericValue::Int16Content(x) => GenericValue::Int16Content(*x),
        GenericValue::Int32Content(x) => GenericValue::Int32Content(*x),
        GenericValue::Int64Content(x) => GenericValue::Int64Content(*x),
        GenericValue::NestedContent(xs) => GenericValue::NestedContent(clone_named_values(xs)),
    }
}

/// A copy of a list of named trait values with the same view.
#[verifier::loop_isolation(false)]
pub fn clone_named_values(xs: &Vec<(String, GenericValue)>) -> (out: Vec<(String, GenericValue)>)
    ensures
        nested_pairs_view(out@) == nested_pairs_view(xs@),
    decreases xs@,
{
    proof {
        lemma_nested_pairs_view(xs@);
    }
    let mut out: Vec<(String, GenericValue)> = Vec::new();
    let mut i: usize = 0;
    while i < xs.len()
        invariant
            0 <= i <= xs.len(),
            out@.len() == i,
            forall|j: int|
                0 <= j < i ==> (#[trigger] out@[j].0@, out@[j].1@) == nested_pairs_view(xs@)[j],
        decreases xs.len() - i,
    {
        let name = xs[i].0.clone();
        let val = clone_value(&xs[i].1);
        out.push((name, val));
        i += 1;
    }
    proof {
        lemma_nested_pairs_view(out@);
        assert(nested_pairs_view(out@) =~= nested_pairs_view(xs@));
    }
    out
}

impl PartialEq for GenericValue {
    fn eq(&self, other: &GenericValue) -> (r: bool) {
        value_eq(self, other)
    }
}

impl vstd::std_specs::cmp::PartialEqSpecImpl for GenericValue {
    open spec fn obeys_eq_spec() -> bool {
        true
    }

    open spec fn eq_spec(&self, other: &GenericValue) -> bool {
        self@ == other@
    }
}

impl Clone for GenericValue {
    fn clone(&self) -> (r: Self)
        ensures
            r@ == self@,
    {
        clone_value(self)
    }
}

pub proof fn lemma_nested_pairs_view(pairs: Seq<(String, GenericValue)>)
    ensures
        nested_pairs_view(pairs).len() == pairs.len(),
        forall|i: int|
            0 <= i < pairs.len() ==> #[trigger] nested_pairs_view(pairs)[i] == (
                pairs[i].0@,
                pairs[i].1@,
            ),
    decreases pairs.len(),
{
    if pairs.len() > 0 {
        lemma_nested_pairs_view(pairs.skip(1));
        let head = seq![(pairs[0].0@, pairs[0].1@)];
        let tail = nested_pairs_view(pairs.skip(1));
        assert(nested_pairs_view(pairs) == head + tail);
        assert forall|i: int| 0 <= i < pairs.len() implies #[trigger] nested_pairs_view(pairs)[i]
            == (pairs[i].0@, pairs[i].1@) by {
            if i > 0 {
                assert((head + tail)[i] == tail[i - 1]);
                assert(pairs.skip(1)[i - 1] == pairs[i]);
            } else {
                assert((head + tail)[0] == head[0]);
            }
        }
    }
}


/// Compares a string against a literal tag.
pub fn string_is(s: &String, lit: &str) -> (r: bool)
    ensures
        r == (s@ == lit@),
{
    let other: String = lit.to_owned();
    *s == other
}

/// An open offer on a token: who bids, in which payment asset, how much.
pub struct Offer {
    pub buyer: Principal,
    pub fungible: Principal,
    pub price: u64,
}

/// The mathematical value of an `Offer`.
pub struct OfferView {
    pub buyer: Seq<u8>,
    pub fungible: Seq<u8>,
    pub price: u64,
}

impl View for Offer {
    type V = OfferView;

    open spec fn view(&self) -> OfferView {
        OfferView { buyer: self.buyer@, fungible: self.fungible@, price: self.price }
    }
}

impl Clone for Offer {
    fn clone(&self) -> (r: Self)
        ensures
            r@ == self@,
    {
        Offer { buyer: self.buyer.clone(), fungible: self.fungible.clone(), price: self.price }
    }
}

/// A recorded sale: who bought, in which payment asset, for how much, when.
pub struct Sale {
    pub buyer: Principal,
    pub fungible: Principal,
    pub price: u64,
    pub time: u64,
}

/// The mathematical value of a `Sale`.
pub struct SaleView {
    pub buyer: Seq<u8>,
    pub fungible: Seq<u8>,
    pub price: u64,
    pub time: u64,
}

impl View for Sale {
    type V = SaleView;

    open spec fn view(&self) -> SaleView {
        SaleView {
            buyer: self.buyer@,
            fungible: self.fungible@,
            price: self.price,
            time: self.time,
        }
    }
}

impl Clone for Sale {
    fn clone(&self) -> (r: Self)
        ensures
            r@ == self@,
    {
        Sale {
            buyer: self.buyer.clone(),
            fungible: self.fungible.clone(),
            price: self.price,
            time: self.time,
        }
    }
}

/// The per-token record: the unit of primary storage.
pub struct TokenData {
    pub id: String,
    pub traits: Option<Vec<(String, GenericValue)>>,
    pub offers: Vec<Offer>,
    pub best_offer: Option<u64>,
    pub price: Option<u64>,
    pub last_sale: Option<Sale>,
    pub last_listing: Option<u64>,
    pub last_offer: Option<u64>,
}

/// The mathematical value of a `TokenData` record.
pub struct TokenView {
    pub id: Seq<char>,
    pub traits: Option<Seq<(Seq<char>, ValueView)>>,
    pub offers: Seq<OfferView>,
    pub best_offer: Option<u64>,
    pub price: Option<u64>,
    pub last_sale: Option<SaleView>,
    pub last_listing: Option<u64>,
    pub last_offer: Option<u64>,
}

impl View for TokenData {
    type V = TokenView;

    open spec fn view(&self) -> TokenView {
        TokenView {
            id: self.id@,
            traits: match self.traits {
                Some(ps) => Some(nested_pairs_view(ps@)),
                None => None,
            },
            offers: self.offers@.map_values(|o: Offer| o@),
            best_offer: self.best_offer,
            price: self.price,
            last_sale: match self.last_sale {
                Some(s) => Some(s@),
                None => None,
            },
            last_listing: self.last_listing,
            last_offer: self.last_offer,
        }
    }
}

/// The record a token starts from when an event first names it.
pub open spec fn empty_token_view() -> TokenView {
    TokenView {
        id: Seq::<char>::empty(),
        traits: None,
        offers: Seq::<OfferView>::empty(),
        best_offer: None,
        price: None,
        last_sale: None,
        last_listing: None,
        last_offer: None,
    }
}

impl Default for TokenData {
    fn default() -> (r: Self)
        ensures
            r@ == empty_token_view(),
    {
        let r = TokenData {
            id: String::new(),
            traits: None,
            offers: Vec::new(),
            best_offer: None,
            price: None,
            last_sale: None,
            last_listing: None,
            last_offer: None,
        };
        proof {
            assert(r@.offers =~= empty_token_view().offers);
            assert(r@ =~= empty_token_view());
        }
        r
    }
}

pub fn clone_offers(v: &Vec<Offer>) -> (r: Vec<Offer>)
    ensures
        r@.map_values(|o: Offer| o@) == v@.map_values(|o: Offer| o@),
{
    let mut r: Vec<Offer> = Vec::new();
    let mut i: usize = 0;
    while i < v.len()
        invariant
            0 <= i <= v.len(),
            r@.len() == i,
            forall|j: int| 0 <= j < i ==> #[trigger] r@[j]@ == v@[j]@,
        decreases v.len() - i,
    {
        r.push(v[i].clone());
        i += 1;
    }
    proof {
        assert(r@.map_values(|o: Offer| o@) =~= v@.map_values(|o: Offer| o@));
    }
    r
}

impl Clone for TokenData {
    fn clone(&self) -> (r: Self)
        ensures
            r@ == self@,
    {
        let r = TokenData {
            id: self.id.clone(),
            traits: match &self.traits {
                Some(ps) => Some(clone_named_values(ps)),
                None => None,
            },
            offers: clone_offers(&self.offers),
            best_offer: self.best_offer,
            price: self.price,
            last_sale: match &self.last_sale {
                Some(s) => Some(s.clone()),
                None => None,
            },
            last_listing: self.last_listing,
            last_offer: self.last_offer,
        };
        proof {
            assert(r@ =~= self@);
        }
        r
    }
}

/// One lifecycle notification for one token, as the event source delivers it.
pub struct Event {
    pub nft_canister_id: Principal,
    pub fungible_id: Option<Principal>,
    pub token_id: String,
    pub operation: String,
    pub traits: Option<Vec<(String, GenericValue)>>,
    pub price: Option<u64>,
    pub buyer: Option<Principal>,
    pub seller: Option<Principal>,
}

/// The mathematical value of an `Event`.
pub struct EventView {
    pub nft_canister_id: Seq<u8>,
    pub fungible_id: Option<Seq<u8>>,
    pub token_id: Seq<char>,
    pub operation: Seq<char>,
    pub traits: Option<Seq<(Seq<char>, ValueView)>>,
    pub price: Option<u64>,
    pub buyer: Option<Seq<u8>>,
    pub seller: Option<Seq<u8>>,
}

impl View for Event {
    type V = EventView;

    open spec fn view(&self) -> EventView {
        EventView {
            nft_canister_id: self.nft_canister_id@,
            fungible_id: match self.fungible_id {
                Some(p) => Some(p@),
                None => None,
            },
            token_id: self.token_id@,
            operation: self.operation@,
            traits: match self.traits {
                Some(ps) => Some(nested_pairs_view(ps@)),
                None => None,
            },
            price: self.price,
            buyer: match self.buyer {
                Some(p) => Some(p@),
                None => None,
            },
            seller: match self.seller {
                Some(p) => Some(p@),
                None => None,
            },
        }
    }
}

/// The seven recognized lifecycle operations.
#[derive(PartialEq, Eq, Structural, Clone, Copy, Debug)]
pub enum Operation {
    Mint,
    MakeListing,
    CancelListing,
    MakeOffer,
    CancelOffer,
    DirectBuy,
    AcceptOffer,
}

/// Which operation a tag string names, if any.
pub open spec fn spec_parse_operation(tag: Seq<char>) -> Option<Operation> {
    if tag == "mint"@ {
        Some(Operation::Mint)
    } else if tag == "makeListing"@ {
        Some(Operation::MakeListing)
    } else if tag == "cancelListing"@ {
        Some(Operation::CancelListing)
    } else if tag == "makeOffer"@ {
        Some(Operation::MakeOffer)
    } else if tag == "cancelOffer"@ {
        Some(Operation::CancelOffer)
    } else if tag == "directBuy"@ {
        Some(Operation::DirectBuy)
    } else if tag == "acceptOffer"@ {
        Some(Operation::AcceptOffer)
    } else {
        None
    }
}

pub fn parse_operation(tag: &String) -> (r: Option<Operation>)
    ensures
        r == spec_parse_operation(tag@),
{
    if string_is(tag, "mint") {
        Some(Operation::Mint)
    } else if string_is(tag, "makeListing") {
        Some(Operation::MakeListing)
    } else if string_is(tag, "cancelListing") {
        Some(Operation::CancelListing)
    } else if string_is(tag, "makeOffer") {
        Some(Operation::MakeOffer)
    } else if string_is(tag, "cancelOffer") {
        Some(Operation::CancelOffer)
    } else if string_is(tag, "directBuy") {
        Some(Operation::DirectBuy)
    } else if string_is(tag, "acceptOffer") {
        Some(Operation::AcceptOffer)
    } else {
        None
    }
}

/// Why the event processor rejected an event.
#[derive(PartialEq, Eq, Structural, Clone, Copy, Debug)]
pub enum OperationError {
    /// The event's operation tag names none of the seven operations.
    UnknownOperation,
}

/// Why an event submitted to a ledger instance was rejected.
#[derive(PartialEq, Eq, Structural, Clone, Copy, Debug)]
pub enum InsertError {
    /// The event names a collection this instance does not curate.
    WrongCanister,
    /// The event's operation tag names none of the seven operations.
    UnknownOperation,
}

/// Why a query returned no data.
#[derive(PartialEq, Eq, Structural, Clone, Copy, Debug)]
pub enum QueryError {
    /// The request's sort key names no Sort Index.
    SortKeyNotFound,
    /// The request's cursor lies beyond the end of the Sort Index.
    PageOutOfBounds,
    /// The request's trait filters match no token at all.
    NoMatchingEntries,
}

/// The seven Sort Indexes, by name.
#[derive(PartialEq, Eq, Structural, Clone, Copy, Debug)]
pub enum SortKey {
    ListingPrice,
    OfferPrice,
    SalePrice,
    LastListing,
    LastOffer,
    LastSale,
    All,
}

/// Which Sort Index a sort key string names, if any.
pub open spec fn spec_parse_sort_key(key: Seq<char>) -> Option<SortKey> {
    if key == "listing_price"@ {
        Some(SortKey::ListingPrice)
    } else if key == "offer_price"@ {
        Some(SortKey::OfferPrice)
    } else if key == "sale_price"@ {
        Some(SortKey::SalePrice)
    } else if key == "last_listing"@ {
        Some(SortKey::LastListing)
    } else if key == "last_offer"@ {
        Some(SortKey::LastOffer)
    } else if key == "last_sale"@ {
        Some(SortKey::LastSale)
    } else if key == "all"@ {
        Some(SortKey::All)
    } else {
        None
    }
}

pub fn parse_sort_key(key: &String) -> (r: Option<SortKey>)
    ensures
        r == spec_parse_sort_key(key@),
{
    if string_is(key, "listing_price") {
        Some(SortKey::ListingPrice)
    } else if string_is(key, "offer_price") {
        Some(SortKey::OfferPrice)
    } else if string_is(key, "sale_price") {
        Some(SortKey::SalePrice)
    } else if string_is(key, "last_listing") {
        Some(SortKey::LastListing)
    } else if string_is(key, "last_offer") {
        Some(SortKey::LastOffer)
    } else if string_is(key, "last_sale") {
        Some(SortKey::LastSale)
    } else if string_is(key, "all") {
        Some(SortKey::All)
    } else {
        None
    }
}

/// One query over the index: which Sort Index, where to resume, how many
/// records, which trait filters, and in which direction.
pub struct QueryRequest {
    pub sort_key: String,
    pub last_index: Option<usize>,
    pub count: Option<usize>,
    pub traits: Option<Vec<(String, GenericValue)>>,
    pub reverse: Option<bool>,
}

/// The mathematical value of a `QueryRequest`.
pub struct QueryRequestView {
    pub sort_key: Seq<char>,
    pub last_index: Option<usize>,
    pub count: Option<usize>,
    pub traits: Option<Seq<(Seq<char>, ValueView)>>,
    pub reverse: Option<bool>,
}

impl View for QueryRequest {
    type V = QueryRequestView;

    open spec fn view(&self) -> QueryRequestView {
        QueryRequestView {
            sort_key: self.sort_key@,
            last_index: self.last_index,
            count: self.count,
            traits: match self.traits {
                Some(ps) => Some(nested_pairs_view(ps@)),
                None => None,
            },
            reverse: self.reverse,
        }
    }
}

/// One page of query results.
pub struct QueryResponse {
    pub total: usize,
    pub last_index: Option<usize>,
    pub data: Vec<TokenData>,
    pub error: Option<QueryError>,
}

/// The mathematical value of a `QueryResponse`.
pub struct QueryResponseView {
    pub total: usize,
    pub last_index: Option<usize>,
    pub data: Seq<TokenView>,
    pub error: Option<QueryError>,
}

impl View for QueryResponse {
    type V = QueryResponseView;

    open spec fn view(&self) -> QueryResponseView {
        QueryResponseView {
            total: self.total,
            last_index: self.last_index,
            data: self.data@.map_values(|t: TokenData| t@),
            error: self.error,
        }
    }
}

} // verus!
