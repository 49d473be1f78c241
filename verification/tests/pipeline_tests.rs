use farm_yield::belt::{get_price, price_from_text, BELT_TICKER, PRICE_MISSING};
use farm_yield::decimal::Decimal;
use farm_yield::model::{
    BeltEntry, Farm, FarmDetails, FarmResponse, FarmValue, FetchError, Platform,
};
use farm_yield::reconcile::{reconcile, reconcile_farm, SENTINEL_FARM};
use farm_yield::scheduler::{
    Action, Event, Phase, Scheduler, INTERVAL_SECS, PORTFOLIO_URL, PRICE_LISTING_URL, STORE_NAME,
};
use farm_yield::timestamp::Timestamp;

fn dec(x: f64) -> Decimal {
    Decimal::parse(&format!("{:?}", x)).expect("a finite number")
}

fn num(d: &Decimal) -> f64 {
    d.to_text().parse().expect("a number")
}

fn entry(ticker: &str, price: &str) -> BeltEntry {
    BeltEntry {
        name: format!("{} token", ticker),
        ticker: ticker.to_string(),
        address: "0x0".to_string(),
        img: "img.png".to_string(),
        price: price.to_string(),
    }
}

fn farm(id: &str, name: &str, amount: f64, usd: Option<f64>, rewards: f64) -> Farm {
    Farm {
        farm: FarmDetails { id: id.to_string(), name: name.to_string(), provider: "p".to_string() },
        rewards: vec![FarmValue { symbol: "R".to_string(), amount: dec(0.5), usd: None }],
        deposit: FarmValue { symbol: "D".to_string(), amount: dec(amount), usd: usd.map(dec) },
        icon: "icon".to_string(),
        farm_rewards: dec(rewards),
    }
}

fn platform(id: &str, farms: Vec<Farm>) -> Platform {
    Platform {
        id: id.to_string(),
        label: id.to_string(),
        url: "url".to_string(),
        icon: "icon".to_string(),
        token: "tok".to_string(),
        token_price: dec(1.5),
        name: id.to_string(),
        farms,
    }
}

fn noon() -> Timestamp {
    Timestamp::new(1_619_870_400, 0).expect("a time in range")
}

#[test]
fn listed_price_is_resolved() {
    let listing = vec![entry("BELT", "9.5"), entry("4BELTPOOLLP", "1.23"), entry("OTHER", "7")];
    let price = get_price(Ok(listing)).expect("a price");
    assert_eq!(price.to_text(), "1.23");
    assert_eq!(num(&price), 1.23);
}

#[test]
fn failed_listing_falls_back_to_one() {
    let (scheduler, opening, first) = Scheduler::start("0xabc".to_string(), true, noon());
    assert!(opening.bytes.is_empty());
    assert!(matches!(first, Action::FetchPrices { .. }));
    let (scheduler, next) = scheduler.step(Event::Prices(Err(FetchError::Transport)));
    match next {
        Action::FetchSnapshot { url } => assert_eq!(url, "https://farm.army/api/v0/farms/0xabc"),
        other => panic!("the cycle did not go on: {:?}", other),
    }
    let snapshot = FarmResponse {
        platforms: vec![platform("a", vec![farm("f1", "4BELT", 100.0, Some(3.0), 5.0)])],
    };
    let (scheduler, last) = scheduler.step(Event::Snapshot(Ok(snapshot)));
    assert!(scheduler.is_idle());
    match last {
        Action::Store { bytes, failures, .. } => {
            assert!(failures.is_empty());
            assert_eq!(
                String::from_utf8(bytes).expect("text"),
                "f1,2021-05-01T12:00:00+00:00,100.0,100.00,5.0\n"
            );
        }
        other => panic!("nothing was stored: {:?}", other),
    }
}

#[test]
fn sentinel_farm_is_priced() {
    let snapshot = FarmResponse {
        platforms: vec![platform("a", vec![farm("f1", "4BELT", 100.0, None, 5.0)])],
    };
    let rows = reconcile(&snapshot, &dec(2.0), &noon());
    assert_eq!(rows.len(), 1);
    assert_eq!(num(&rows[0].token_deposit), 100.0);
    assert_eq!(num(&rows[0].usd_value), 200.0);
    assert_eq!(num(&rows[0].usd_reward), 5.0);
    assert_eq!(rows[0].farm_id, "f1");
}

#[test]
fn other_farm_keeps_snapshot_value() {
    let snapshot = FarmResponse {
        platforms: vec![platform("a", vec![farm("f1", "OtherFarm", 50.0, Some(75.5), 1.2)])],
    };
    for price in [0.0, 1.0, 2.0, 1000.0] {
        let rows = reconcile(&snapshot, &dec(price), &noon());
        assert_eq!(rows.len(), 1);
        assert_eq!(num(&rows[0].usd_value), 75.5);
        assert_eq!(num(&rows[0].token_deposit), 50.0);
        assert_eq!(num(&rows[0].usd_reward), 1.2);
    }
}

#[test]
fn failed_snapshot_skips_the_cycle() {
    let (scheduler, opening, _) = Scheduler::start("0xabc".to_string(), false, noon());
    assert_eq!(opening.bytes, b"farm_id,date,token_deposit,usd_value,usd_reward\n".to_vec());
    assert!(!scheduler.needs_header());
    let (scheduler, _) = scheduler.step(Event::Prices(Ok(vec![entry("4BELTPOOLLP", "1.23")])));
    let (scheduler, action) = scheduler.step(Event::Snapshot(Err(FetchError::Decode)));
    match action {
        Action::Sleep { secs } => assert_eq!(secs, 3600),
        other => panic!("the cycle was not skipped: {:?}", other),
    }
    assert!(scheduler.is_idle());
    // The next cycle begins only on waking, with the fetch of the listing,
    // and writes rows alone: the header went out when the store was opened.
    let later = Timestamp::new(1_619_874_000, 0).expect("a time in range");
    let (scheduler, action) = scheduler.step(Event::Wake(later));
    assert!(matches!(action, Action::FetchPrices { .. }));
    let (scheduler, _) = scheduler.step(Event::Prices(Err(FetchError::Decode)));
    let snapshot = FarmResponse {
        platforms: vec![platform("a", vec![farm("f1", "x", 1.0, Some(2.0), 3.0)])],
    };
    let (_, action) = scheduler.step(Event::Snapshot(Ok(snapshot)));
    match action {
        Action::Store { bytes, stamp, sleep_secs, .. } => {
            assert_eq!(
                String::from_utf8(bytes).expect("text"),
                "f1,2021-05-01T13:00:00+00:00,1.0,2.0,3.0\n"
            );
            assert_eq!(stamp, "2021-05-01T13:00:00+00:00");
            assert_eq!(sleep_secs, 3600);
        }
        other => panic!("nothing was stored: {:?}", other),
    }
}

#[test]
fn sentinel_value_overrides_what_the_snapshot_says() {
    let with_usd = farm("f1", "4BELT", 10.0, Some(999.0), 0.0);
    let without = farm("f1", "4BELT", 10.0, None, 0.0);
    let price = dec(1.5);
    let a = reconcile_farm(&with_usd, &price, &noon());
    let b = reconcile_farm(&without, &price, &noon());
    assert_eq!(a.usd_value.to_text(), "15.00");
    assert_eq!(b.usd_value.to_text(), "15.00");
}

#[test]
fn absent_value_of_other_farm_is_zero() {
    let row = reconcile_farm(&farm("f1", "Other", 10.0, None, 0.0), &dec(7.0), &noon());
    assert_eq!(row.usd_value.to_text(), "0.0");
    assert_eq!(num(&row.usd_value), 0.0);
}

#[test]
fn sentinel_name_must_match_exactly() {
    for name in ["4belt", "4BELT ", "4BELTPOOLLP", ""] {
        let row = reconcile_farm(&farm("f1", name, 10.0, Some(3.0), 0.0), &dec(7.0), &noon());
        assert_eq!(num(&row.usd_value), 3.0, "{:?}", name);
    }
    assert_eq!(SENTINEL_FARM, "4BELT");
}

#[test]
fn rows_follow_platforms_then_farms() {
    let snapshot = FarmResponse {
        platforms: vec![
            platform("z", vec![farm("z2", "x", 1.0, None, 0.0), farm("z1", "x", 1.0, None, 0.0)]),
            platform("empty", vec![]),
            platform("a", vec![farm("a9", "4BELT", 1.0, None, 0.0), farm("a1", "x", 1.0, None, 0.0)]),
        ],
    };
    let rows = reconcile(&snapshot, &dec(1.0), &noon());
    let ids: Vec<&str> = rows.iter().map(|r| r.farm_id.as_str()).collect();
    assert_eq!(ids, vec!["z2", "z1", "a9", "a1"]);
}

#[test]
fn rows_of_a_cycle_share_the_timestamp() {
    let snapshot = FarmResponse {
        platforms: vec![
            platform("a", vec![farm("1", "x", 1.0, None, 0.0), farm("2", "4BELT", 1.0, None, 0.0)]),
            platform("b", vec![farm("3", "x", 1.0, None, 0.0)]),
        ],
    };
    let rows = reconcile(&snapshot, &dec(1.0), &noon());
    assert_eq!(rows.len(), 3);
    for row in &rows {
        assert_eq!(row.date, "2021-05-01T12:00:00+00:00");
    }
}

#[test]
fn empty_snapshot_gives_no_rows() {
    let rows = reconcile(&FarmResponse { platforms: vec![] }, &dec(1.0), &noon());
    assert!(rows.is_empty());
}

#[test]
fn first_matching_entry_wins() {
    let listing = vec![
        entry("X", "5"),
        entry(BELT_TICKER, "2.5"),
        entry(BELT_TICKER, "9.9"),
    ];
    assert_eq!(get_price(Ok(listing)).expect("a price").to_text(), "2.5");
}

#[test]
fn unreadable_price_text_counts_as_one() {
    let listing = vec![entry("4BELTPOOLLP", "n/a"), entry("4BELTPOOLLP", "3")];
    assert_eq!(get_price(Ok(listing)).expect("a price").to_text(), "1.0");
    assert_eq!(price_from_text("").to_text(), "1.0");
    assert_eq!(price_from_text("2.75").to_text(), "2.75");
}

#[test]
fn missing_ticker_is_an_error() {
    let listing = vec![entry("BELT", "1"), entry("4beltpoollp", "2")];
    assert_eq!(get_price(Ok(listing)).err(), Some("Can't retrieve 4belt price".to_string()));
    assert_eq!(get_price(Ok(vec![])).err(), Some(PRICE_MISSING.to_string()));
}

#[test]
fn failed_fetch_is_an_error() {
    assert_eq!(get_price(Err(FetchError::Transport)).err(), Some(PRICE_MISSING.to_string()));
    assert_eq!(get_price(Err(FetchError::Decode)).err(), Some(PRICE_MISSING.to_string()));
}

#[test]
fn listed_price_reaches_the_rows() {
    let (scheduler, _, _) = Scheduler::start("acc".to_string(), true, noon());
    let (scheduler, _) = scheduler.step(Event::Prices(Ok(vec![entry("4BELTPOOLLP", "2.0")])));
    let snapshot = FarmResponse {
        platforms: vec![platform("a", vec![farm("f1", "4BELT", 100.0, None, 5.0)])],
    };
    let (_, action) = scheduler.step(Event::Snapshot(Ok(snapshot)));
    match action {
        Action::Store { bytes, .. } => assert_eq!(
            String::from_utf8(bytes).expect("text"),
            "f1,2021-05-01T12:00:00+00:00,100.0,200.00,5.0\n"
        ),
        other => panic!("nothing was stored: {:?}", other),
    }
}

#[test]
fn events_that_are_not_awaited_change_nothing() {
    let (scheduler, _, _) = Scheduler::start("acc".to_string(), true, noon());
    let (scheduler, action) = scheduler.step(Event::Wake(noon()));
    assert!(matches!(action, Action::FetchPrices { .. }));
    let (scheduler, action) = scheduler.step(Event::Snapshot(Err(FetchError::Transport)));
    assert!(matches!(action, Action::FetchPrices { .. }));
    assert!(matches!(scheduler.phase(), Phase::AwaitingPrices { .. }));
    let (scheduler, action) = scheduler.step(Event::Prices(Err(FetchError::Transport)));
    assert!(matches!(action, Action::FetchSnapshot { .. }));
    let (scheduler, action) = scheduler.step(Event::Prices(Err(FetchError::Transport)));
    match action {
        Action::FetchSnapshot { url } => assert_eq!(url, "https://farm.army/api/v0/farms/acc"),
        other => panic!("the snapshot is not awaited: {:?}", other),
    }
    assert!(matches!(scheduler.phase(), Phase::AwaitingSnapshot { .. }));
    let (scheduler, action) = scheduler.step(Event::Snapshot(Err(FetchError::Transport)));
    assert!(matches!(action, Action::Sleep { secs: 3600 }));
    let (scheduler, action) = scheduler.step(Event::Prices(Ok(vec![])));
    assert!(matches!(action, Action::Sleep { secs: 3600 }));
    assert!(scheduler.is_idle());
}

#[test]
fn price_text_with_an_exponent_is_read() {
    let listing = vec![entry("4BELTPOOLLP", "1e5")];
    assert_eq!(get_price(Ok(listing)).expect("a price").to_text(), "100000");
    assert_eq!(price_from_text("2.5e-1").to_text(), "0.25");
}

#[test]
fn new_store_gets_its_header_though_every_fetch_fails() {
    let (scheduler, opening, _) = Scheduler::start("acc".to_string(), false, noon());
    assert_eq!(
        String::from_utf8(opening.bytes).expect("text"),
        "farm_id,date,token_deposit,usd_value,usd_reward\n"
    );
    assert!(opening.failures.is_empty());
    let (scheduler, _) = scheduler.step(Event::Prices(Err(FetchError::Transport)));
    let (scheduler, action) = scheduler.step(Event::Snapshot(Err(FetchError::Transport)));
    assert!(matches!(action, Action::Sleep { secs: 3600 }));
    // The next run finds the store in place and hands out no header.
    let (_, restart, _) = Scheduler::start(scheduler.account().to_string(), true, noon());
    assert!(restart.bytes.is_empty());
}

#[test]
fn constants_name_the_endpoints_and_the_store() {
    assert_eq!(PRICE_LISTING_URL, "https://s.belt.fi/status/A_beltTokenList.json");
    assert_eq!(PORTFOLIO_URL, "https://farm.army/api/v0/farms/");
    assert_eq!(STORE_NAME, "farm_yield.csv");
    assert_eq!(INTERVAL_SECS, 3600);
}

#[test]
fn timestamp_text_is_rfc3339_in_utc() {
    let t = Timestamp::new(1_431_648_000, 0).expect("in range");
    assert_eq!(t.text(), "2015-05-15T00:00:00+00:00");
    assert_eq!(t.secs(), 1_431_648_000);
    assert_eq!(t.nanos(), 0);
    let t = Timestamp::new(0, 500_000_000).expect("in range");
    assert_eq!(t.text(), "1970-01-01T00:00:00.500+00:00");
    let t = Timestamp::new(-1, 123_456_789).expect("in range");
    assert_eq!(t.text(), "1969-12-31T23:59:59.123456789+00:00");
}

#[test]
fn timestamp_out_of_range_is_refused() {
    assert!(Timestamp::new(i64::MAX, 0).is_none());
    assert!(Timestamp::new(i64::MIN, 0).is_none());
    assert!(Timestamp::new(0, 2_000_000_000).is_none());
}

#[test]
fn current_time_has_a_text() {
    let now = chrono::Utc::now();
    let stamp = Timestamp::new(now.timestamp(), now.timestamp_subsec_nanos()).expect("in range");
    assert!(stamp.secs() > 1_600_000_000);
    assert_eq!(stamp.text(), now.to_rfc3339());
    assert!(stamp.text().ends_with("+00:00"));
}

#[test]
fn phases_follow_the_cycle() {
    let (scheduler, _, _) = Scheduler::start("acc".to_string(), true, noon());
    assert_eq!(scheduler.account(), "acc");
    match scheduler.phase() {
        Phase::AwaitingPrices { stamp } => assert_eq!(stamp.text(), "2021-05-01T12:00:00+00:00"),
        other => panic!("not sampling: {:?}", other),
    }
    let (scheduler, _) = scheduler.step(Event::Prices(Ok(vec![entry("4BELTPOOLLP", "1.5")])));
    match scheduler.phase() {
        Phase::AwaitingSnapshot { stamp, price } => {
            assert_eq!(stamp.text(), "2021-05-01T12:00:00+00:00");
            assert_eq!(price.to_text(), "1.5");
        }
        other => panic!("not sampling: {:?}", other),
    }
    let (scheduler, _) = scheduler.step(Event::Snapshot(Ok(FarmResponse { platforms: vec![] })));
    assert!(matches!(scheduler.phase(), Phase::Idle));
}
