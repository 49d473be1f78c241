//! Flattens a position snapshot into rows, one per farm, and settles the USD
//! value of each deposit.

use crate::decimal::{zero_view, Decimal, DecimalView};
use crate::model::{Farm, FarmResponse, Platform, Row, RowView};
use crate::timestamp::Timestamp;
use vstd::prelude::*;
use vstd::string::StringExecFns;

verus! {

/// The name of the farm whose deposit the snapshot cannot price.
pub const SENTINEL_FARM: &'static str = "4BELT";

/// Whether the snapshot's own USD value of this farm's deposit is set aside.
pub open spec fn is_sentinel(farm: Farm) -> bool {
    farm.farm.name@ == SENTINEL_FARM@
}

/// The USD value of a farm's deposit: for the sentinel farm the deposited
/// amount times the resolved price, whatever the snapshot says; for every
/// other farm what the snapshot says, and `0.0` where it says nothing.
pub open spec fn resolved_usd(farm: Farm, belt_price: DecimalView) -> DecimalView {
    if is_sentinel(farm) {
        farm.deposit.amount@.times(belt_price)
    } else {
        match farm.deposit.usd {
            Some(usd) => usd@,
            None => zero_view(),
        }
    }
}

/// The row of one farm at the sampling time written as `date`.
pub open spec fn row_of(farm: Farm, belt_price: DecimalView, date: Seq<char>) -> RowView {
    RowView {
        farm_id: farm.farm.id@,
        date,
        token_deposit: farm.deposit.amount@,
        usd_value: resolved_usd(farm, belt_price),
        usd_reward: farm.farm_rewards@,
    }
}

/// All farms of the platforms: platform after platform, and within a
/// platform farm after farm.
pub open spec fn all_farms(platforms: Seq<Platform>) -> Seq<Farm>
    decreases platforms.len(),
{
    if platforms.len() == 0 {
        Seq::empty()
    } else {
        all_farms(platforms.drop_last()) + platforms.last().farms@
    }
}

/// The number of farms in the platforms before the one at index `p`.
pub open spec fn farms_before(platforms: Seq<Platform>, p: int) -> nat {
    all_farms(platforms.take(p)).len()
}

/// `rows` are the rows of `farms`, one for one and in the same order.
pub open spec fn rows_of(
    rows: Seq<Row>,
    farms: Seq<Farm>,
    belt_price: DecimalView,
    date: Seq<char>,
) -> bool {
    &&& rows.len() == farms.len()
    &&& forall|i: int|
        0 <= i < rows.len() ==> (#[trigger] rows[i])@ == row_of(farms[i], belt_price, date)
}

/// Whether a farm's name is the sentinel.
fn names_sentinel(name: &String) -> (r: bool)
    ensures
        r == (name@ == SENTINEL_FARM@),
{
    let sentinel = String::from_str(SENTINEL_FARM);
    *name == sentinel
}

/// The row of one farm.
pub fn reconcile_farm(farm: &Farm, belt_price: &Decimal, timestamp: &Timestamp) -> (row: Row)
    ensures
        row@ == row_of(*farm, belt_price@, timestamp.spec_text()),
        is_sentinel(*farm) ==> row.usd_value@ == farm.deposit.amount@.times(belt_price@),
        !is_sentinel(*farm) ==> row.usd_value@ == match farm.deposit.usd {
            Some(usd) => usd@,
            None => zero_view(),
        },
{
    let usd_value = if names_sentinel(&farm.farm.name) {
        farm.deposit.amount.times(belt_price)
    } else {
        match &farm.deposit.usd {
            Some(usd) => usd.clone(),
            None => Decimal::zero(),
        }
    };
    Row {
        farm_id: farm.farm.id.clone(),
        date: String::from_str(timestamp.text()),
        token_deposit: farm.deposit.amount.clone(),
        usd_value,
        usd_reward: farm.farm_rewards.clone(),
    }
}

/// The rows of one cycle: one per farm, in the order in which the snapshot
/// lists platforms and, within each, farms; all with the one timestamp.
pub fn reconcile(snapshot: &FarmResponse, belt_price: &Decimal, timestamp: &Timestamp) -> (rows:
    Vec<Row>)
    ensures
        rows_of(rows@, all_farms(snapshot.platforms@), belt_price@, timestamp.spec_text()),
        forall|i: int|
            0 <= i < rows@.len() ==> (#[trigger] rows@[i]).date@ == timestamp.spec_text(),
        forall|i: int|
            0 <= i < rows@.len() ==> (#[trigger] rows@[i]).farm_id@ == all_farms(
                snapshot.platforms@,
            )[i].farm.id@,
{
    let ghost price = belt_price@;
    let ghost date = timestamp.spec_text();
    let ghost platforms = snapshot.platforms@;
    let mut rows: Vec<Row> = Vec::new();
    let mut p: usize = 0;
    proof {
        assert(platforms.take(0) =~= Seq::<Platform>::empty());
    }
    while p < snapshot.platforms.len()
        invariant
            p <= platforms.len(),
            platforms == snapshot.platforms@,
            price == belt_price@,
            date == timestamp.spec_text(),
            rows_of(rows@, all_farms(platforms.take(p as int)), price, date),
        decreases platforms.len() - p,
    {
        let platform = &snapshot.platforms[p];
        let ghost done = all_farms(platforms.take(p as int));
        let mut f: usize = 0;
        proof {
            assert(done + platform.farms@.take(0) =~= done);
        }
        while f < platform.farms.len()
            invariant
                f <= platform.farms@.len(),
                price == belt_price@,
                date == timestamp.spec_text(),
                rows_of(rows@, done + platform.farms@.take(f as int), price, date),
            decreases platform.farms@.len() - f,
        {
            let row = reconcile_farm(&platform.farms[f], belt_price, timestamp);
            proof {
                assert(done + platform.farms@.take(f + 1) =~= (done + platform.farms@.take(
                    f as int,
                )).push(platform.farms@[f as int]));
            }
            rows.push(row);
            f += 1;
        }
        proof {
            assert(platform.farms@.take(f as int) =~= platform.farms@);
            assert(platforms.take(p + 1).drop_last() =~= platforms.take(p as int));
            assert(platforms.take(p + 1).last() == platforms[p as int]);
        }
        p += 1;
    }
    proof {
        assert(platforms.take(p as int) =~= platforms);
    }
    rows
}

/// The resolved price never reaches a farm that is not the sentinel: its USD
/// value is what the snapshot supplies, or `0.0`, under any two prices.
pub proof fn lemma_price_leaves_other_farms(
    farm: Farm,
    price_a: DecimalView,
    price_b: DecimalView,
)
    requires
        !is_sentinel(farm),
    ensures
        resolved_usd(farm, price_a) == resolved_usd(farm, price_b),
        farm.deposit.usd is Some ==> resolved_usd(farm, price_a) == farm.deposit.usd->0@,
        farm.deposit.usd is None ==> resolved_usd(farm, price_a) == zero_view(),
{
}

/// For the sentinel farm the USD value is the deposited amount times the
/// resolved price, exactly.
pub proof fn lemma_sentinel_is_priced(farm: Farm, belt_price: DecimalView)
    requires
        is_sentinel(farm),
    ensures
        resolved_usd(farm, belt_price) == farm.deposit.amount@.times(belt_price),
        resolved_usd(farm, belt_price).unscaled == farm.deposit.amount@.unscaled
            * belt_price.unscaled,
        resolved_usd(farm, belt_price).scale == farm.deposit.amount@.scale + belt_price.scale,
{
}

/// What the snapshot supplies as the USD value of the sentinel farm is
/// overridden: two sentinel farms with the same deposited amount get the
/// same value, whatever USD value each came with.
pub proof fn lemma_sentinel_overrides_snapshot(farm: Farm, other: Farm, belt_price: DecimalView)
    requires
        is_sentinel(farm),
        is_sentinel(other),
        farm.deposit.amount@ == other.deposit.amount@,
    ensures
        resolved_usd(farm, belt_price) == resolved_usd(other, belt_price),
{
}

/// All rows of a cycle carry the same timestamp.
pub proof fn lemma_rows_share_timestamp(
    rows: Seq<Row>,
    farms: Seq<Farm>,
    belt_price: DecimalView,
    date: Seq<char>,
    i: int,
    j: int,
)
    requires
        rows_of(rows, farms, belt_price, date),
        0 <= i < rows.len(),
        0 <= j < rows.len(),
    ensures
        rows[i].date@ == rows[j].date@,
        rows[i].date@ == date,
{
    assert(rows[i]@ == row_of(farms[i], belt_price, date));
    assert(rows[j]@ == row_of(farms[j], belt_price, date));
}

/// Where a farm stands among all farms: after every farm of the platforms
/// before its own, at its index within its platform.
pub proof fn lemma_traversal_position(platforms: Seq<Platform>, p: int, f: int)
    requires
        0 <= p < platforms.len(),
        0 <= f < platforms[p].farms@.len(),
    ensures
        farms_before(platforms, p) + f < all_farms(platforms).len(),
        all_farms(platforms)[farms_before(platforms, p) + f] == platforms[p].farms@[f],
    decreases platforms.len(),
{
    let front = platforms.drop_last();
    if p == platforms.len() - 1 {
        assert(platforms.take(p) =~= front);
    } else {
        lemma_traversal_position(front, p, f);
        assert(front.take(p) =~= platforms.take(p));
        assert(front[p] == platforms[p]);
    }
}

/// Rows keep the traversal order: of two farms, the one in the earlier
/// platform, or earlier in the same platform, stands earlier.
pub proof fn lemma_traversal_keeps_order(platforms: Seq<Platform>, p: int, f: int, q: int, g: int)
    requires
        0 <= p < platforms.len(),
        0 <= q < platforms.len(),
        0 <= f < platforms[p].farms@.len(),
        0 <= g < platforms[q].farms@.len(),
        p < q || (p == q && f < g),
    ensures
        farms_before(platforms, p) + f < farms_before(platforms, q) + g,
{
    if p < q {
        lemma_farms_before_grows(platforms, p + 1, q);
        assert(platforms.take(p + 1).drop_last() =~= platforms.take(p));
        assert(platforms.take(p + 1).last() == platforms[p]);
    }
}

/// The count of farms before a platform grows with its index.
pub proof fn lemma_farms_before_grows(platforms: Seq<Platform>, p: int, q: int)
    requires
        0 <= p <= q <= platforms.len(),
    ensures
        farms_before(platforms, p) <= farms_before(platforms, q),
    decreases q - p,
{
    if p < q {
        lemma_farms_before_grows(platforms, p, q - 1);
        assert(platforms.take(q).drop_last() =~= platforms.take(q - 1));
    }
}

} // verus!
