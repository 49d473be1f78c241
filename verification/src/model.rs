//! The data that one sampling cycle works on: the price listing, the
//! position snapshot of the tracked account, and the rows made from them.

use crate::decimal::{Decimal, DecimalView};
use vstd::prelude::*;

verus! {

/// One entry of the price listing. The price is decimal text.
#[derive(Clone, Debug)]
pub struct BeltEntry {
    pub name: String,
    pub ticker: String,
    pub address: String,
    pub img: String,
    pub price: String,
}

/// What identifies a farm.
#[derive(Clone, Debug)]
pub struct FarmDetails {
    pub id: String,
    pub name: String,
    pub provider: String,
}

/// An amount of a token, with its value in USD where the snapshot has one.
#[derive(Clone, Debug)]
pub struct FarmValue {
    pub symbol: String,
    pub amount: Decimal,
    pub usd: Option<Decimal>,
}

/// One yield-generating position.
#[derive(Clone, Debug)]
pub struct Farm {
    pub farm: FarmDetails,
    pub rewards: Vec<FarmValue>,
    pub deposit: FarmValue,
    pub icon: String,
    pub farm_rewards: Decimal,
}

/// The farms of one protocol.
#[derive(Clone, Debug)]
pub struct Platform {
    pub id: String,
    pub label: String,
    pub url: String,
    pub icon: String,
    pub token: String,
    pub token_price: Decimal,
    pub name: String,
    pub farms: Vec<Farm>,
}

/// The position snapshot of one account: its platforms, in the order given.
#[derive(Clone, Debug)]
pub struct FarmResponse {
    pub platforms: Vec<Platform>,
}

/// One line of the time series: one farm at one sampling time.
#[derive(Clone, Debug)]
pub struct Row {
    pub farm_id: String,
    pub date: String,
    pub token_deposit: Decimal,
    pub usd_value: Decimal,
    pub usd_reward: Decimal,
}

/// What a [`Row`] holds, as texts and numbers.
pub struct RowView {
    pub farm_id: Seq<char>,
    pub date: Seq<char>,
    pub token_deposit: DecimalView,
    pub usd_value: DecimalView,
    pub usd_reward: DecimalView,
}

impl View for Row {
    type V = RowView;

    open spec fn view(&self) -> RowView {
        RowView {
            farm_id: self.farm_id@,
            date: self.date@,
            token_deposit: self.token_deposit@,
            usd_value: self.usd_value@,
            usd_reward: self.usd_reward@,
        }
    }
}

/// Why a fetch brought nothing.
#[derive(Clone, Copy, Debug, PartialEq, Eq, Structural)]
pub enum FetchError {
    /// The endpoint could not be reached, or answered with a failure.
    Transport,
    /// The body that came back is not of the expected shape.
    Decode,
}

} // verus!
