//! Resolves the price of the pool token from the price listing.

use crate::decimal::{one_view, parse_decimal, Decimal, DecimalView};
use crate::model::{BeltEntry, FetchError};
use vstd::prelude::*;
use vstd::string::StringExecFns;

verus! {

/// The ticker whose price is looked up.
pub const BELT_TICKER: &'static str = "4BELTPOOLLP";

/// The message when no price can be had.
pub const PRICE_MISSING: &'static str = "Can't retrieve 4belt price";

/// Whether the entry quotes the pool token.
pub open spec fn quotes_belt(entry: BeltEntry) -> bool {
    entry.ticker@ == BELT_TICKER@
}

/// The price that a price text gives: the decimal it writes, or `1.0` where
/// it writes none.
pub open spec fn price_of(text: Seq<char>) -> DecimalView {
    match parse_decimal(text) {
        Some(price) => price,
        None => one_view(),
    }
}

/// The price of the first entry of the listing that quotes the pool token.
pub open spec fn listed_price(listing: Seq<BeltEntry>) -> Option<DecimalView>
    decreases listing.len(),
{
    if listing.len() == 0 {
        None
    } else if quotes_belt(listing[0]) {
        Some(price_of(listing[0].price@))
    } else {
        listed_price(listing.drop_first())
    }
}

/// What a fetch of the listing resolves to: the listed price, and nothing
/// where the fetch failed or no entry quotes the pool token.
pub open spec fn fetched_price(fetched: Result<Vec<BeltEntry>, FetchError>) -> Option<DecimalView> {
    match fetched {
        Ok(listing) => listed_price(listing@),
        Err(_) => None,
    }
}

/// The listed price is that of the entry at the least index that quotes the
/// pool token, and there is none exactly when no entry does.
pub proof fn lemma_listed_price_is_first_match(listing: Seq<BeltEntry>)
    ensures
        match listed_price(listing) {
            Some(price) => exists|i: int|
                0 <= i < listing.len() && quotes_belt(#[trigger] listing[i]) && price == price_of(
                    listing[i].price@,
                ) && forall|j: int| 0 <= j < i ==> !quotes_belt(#[trigger] listing[j]),
            None => forall|j: int| 0 <= j < listing.len() ==> !quotes_belt(#[trigger] listing[j]),
        },
    decreases listing.len(),
{
    if listing.len() == 0 {
    } else if quotes_belt(listing[0]) {
        assert(quotes_belt(listing[0]) && forall|j: int|
            0 <= j < 0 ==> !quotes_belt(#[trigger] listing[j]));
    } else {
        let rest = listing.drop_first();
        lemma_listed_price_is_first_match(rest);
        match listed_price(rest) {
            Some(price) => {
                let i = choose|i: int|
                    0 <= i < rest.len() && quotes_belt(#[trigger] rest[i]) && price == price_of(
                        rest[i].price@,
                    ) && forall|j: int| 0 <= j < i ==> !quotes_belt(#[trigger] rest[j]);
                assert(listing[i + 1] == rest[i]);
                assert forall|j: int| 0 <= j < i + 1 implies !quotes_belt(
                    #[trigger] listing[j],
                ) by {
                    if j > 0 {
                        assert(listing[j] == rest[j - 1]);
                    }
                }
                assert(quotes_belt(listing[i + 1]));
            },
            None => {
                assert forall|j: int| 0 <= j < listing.len() implies !quotes_belt(
                    #[trigger] listing[j],
                ) by {
                    if j > 0 {
                        assert(listing[j] == rest[j - 1]);
                    }
                }
            },
        }
    }
}

/// The price that a price text gives, `1.0` where the text is no decimal.
pub fn price_from_text(text: &str) -> (price: Decimal)
    ensures
        price@ == price_of(text@),
{
    match Decimal::parse(text) {
        Some(price) => price,
        None => Decimal::one(),
    }
}

/// The price of the pool token, from what the fetch of the price listing
/// brought: the price of the first entry with the pool token's ticker, read
/// from its text, and `1.0` where that text is no decimal. Where the fetch
/// failed, or no entry has the ticker, there is no price.
pub fn get_price(fetched: Result<Vec<BeltEntry>, FetchError>) -> (r: Result<Decimal, String>)
    ensures
        match r {
            Ok(price) => fetched_price(fetched) == Some(price@),
            Err(message) => fetched_price(fetched) is None && message@ == PRICE_MISSING@,
        },
        r is Err <==> (fetched is Err || forall|j: int|
            0 <= j < fetched->Ok_0@.len() ==> !quotes_belt(#[trigger] fetched->Ok_0@[j])),
{
    if let Ok(listing) = &fetched {
        let ticker = String::from_str(BELT_TICKER);
        let mut i: usize = 0;
        proof {
            assert(listing@.skip(0) =~= listing@);
        }
        while i < listing.len()
            invariant
                i <= listing@.len(),
                ticker@ == BELT_TICKER@,
                fetched == Ok::<Vec<BeltEntry>, FetchError>(*listing),
                listed_price(listing@) == listed_price(listing@.skip(i as int)),
            decreases listing@.len() - i,
        {
            let entry = &listing[i];
            if entry.ticker == ticker {
                proof {
                    lemma_listed_price_is_first_match(listing@);
                }
                return Ok(price_from_text(entry.price.as_str()));
            }
            proof {
                assert(listing@.skip(i as int).drop_first() =~= listing@.skip(i + 1));
            }
            i += 1;
        }
    }
    proof {
        if let Ok(listing) = fetched {
            lemma_listed_price_is_first_match(listing@);
        }
    }
    Err(String::from_str(PRICE_MISSING))
}

} // verus!
