//! The sampling loop as a state machine: each event that the outside world
//! reports moves it on and names the next thing to do.

use crate::belt::{fetched_price, get_price};
use crate::decimal::{one_view, Decimal, DecimalView};
use crate::model::{BeltEntry, Farm, FarmResponse, FetchError, RowView};
use crate::reconcile::{all_farms, reconcile, row_of};
use crate::sink::{emit, header_due_after_open, opening, views, Batch, RecordSink};
use crate::timestamp::Timestamp;
use vstd::prelude::*;
use vstd::string::StringExecFns;

verus! {

/// Where the price listing is fetched from.
pub const PRICE_LISTING_URL: &'static str = "https://s.belt.fi/status/A_beltTokenList.json";

/// Where the position snapshot is fetched from; the account follows.
pub const PORTFOLIO_URL: &'static str = "https://farm.army/api/v0/farms/";

/// The name of the store.
pub const STORE_NAME: &'static str = "farm_yield.csv";

/// Seconds between the end of one cycle and the start of the next.
pub const INTERVAL_SECS: u64 = 3600;

/// Where the loop stands. The two awaiting phases make up the sampling
/// state; `Idle` is the sleep between two cycles.
#[derive(Debug)]
pub enum Phase {
    Idle,
    AwaitingPrices { stamp: Timestamp },
    AwaitingSnapshot { stamp: Timestamp, price: Decimal },
}

/// What the outside world reports.
#[derive(Debug)]
pub enum Event {
    /// The interval is over; the time is the one given.
    Wake(Timestamp),
    /// The fetch of the price listing has ended.
    Prices(Result<Vec<BeltEntry>, FetchError>),
    /// The fetch of the position snapshot has ended.
    Snapshot(Result<FarmResponse, FetchError>),
}

/// What is to be done next.
#[derive(Debug)]
pub enum Action {
    /// Fetch the price listing and report it.
    FetchPrices { url: String },
    /// Fetch the position snapshot and report it.
    FetchSnapshot { url: String },
    /// Append the bytes to the store and flush it, then sleep and wake.
    /// `failures` holds the error of each row that could not be written;
    /// `stamp` is the cycle's timestamp.
    Store { bytes: Vec<u8>, failures: Vec<String>, stamp: String, sleep_secs: u64 },
    /// Sleep and wake.
    Sleep { secs: u64 },
}

/// The loop's state: the tracked account, the sink, and the phase.
#[derive(Debug)]
pub struct Scheduler {
    account: String,
    sink: RecordSink,
    phase: Phase,
}

/// A [`Phase`] as plain values.
pub enum PhaseView {
    Idle,
    AwaitingPrices { stamp: Seq<char> },
    AwaitingSnapshot { stamp: Seq<char>, price: DecimalView },
}

/// A [`Scheduler`] as plain values.
pub struct SchedulerView {
    pub account: Seq<char>,
    pub header_due: bool,
    pub phase: PhaseView,
}

/// An [`Action`] as plain values.
pub enum ActionView {
    FetchPrices { url: Seq<char> },
    FetchSnapshot { url: Seq<char> },
    Store { bytes: Seq<u8>, failures: Seq<Seq<char>>, stamp: Seq<char>, sleep_secs: nat },
    Sleep { secs: nat },
}

impl View for Phase {
    type V = PhaseView;

    open spec fn view(&self) -> PhaseView {
        match *self {
            Phase::Idle => PhaseView::Idle,
            Phase::AwaitingPrices { stamp } => PhaseView::AwaitingPrices {
                stamp: stamp.spec_text(),
            },
            Phase::AwaitingSnapshot { stamp, price } => PhaseView::AwaitingSnapshot {
                stamp: stamp.spec_text(),
                price: price@,
            },
        }
    }
}

impl View for Action {
    type V = ActionView;

    open spec fn view(&self) -> ActionView {
        match *self {
            Action::FetchPrices { url } => ActionView::FetchPrices { url: url@ },
            Action::FetchSnapshot { url } => ActionView::FetchSnapshot { url: url@ },
            Action::Store { bytes, failures, stamp, sleep_secs } => ActionView::Store {
                bytes: bytes@,
                failures: failures.deep_view(),
                stamp: stamp@,
                sleep_secs: sleep_secs as nat,
            },
            Action::Sleep { secs } => ActionView::Sleep { secs: secs as nat },
        }
    }
}

impl View for Scheduler {
    type V = SchedulerView;

    closed spec fn view(&self) -> SchedulerView {
        SchedulerView {
            account: self.account@,
            header_due: self.sink.header_due(),
            phase: self.phase@,
        }
    }
}

/// The price a cycle works with: the one the listing gives, else `1.0`.
pub open spec fn resolved_price(fetched: Result<Vec<BeltEntry>, FetchError>) -> DecimalView {
    match fetched_price(fetched) {
        Some(price) => price,
        None => one_view(),
    }
}

/// The rows of a snapshot, in its order, at one price and one timestamp.
pub open spec fn reconciled(snapshot: FarmResponse, price: DecimalView, stamp: Seq<char>) -> Seq<
    RowView,
> {
    all_farms(snapshot.platforms@).map_values(|farm: Farm| row_of(farm, price, stamp))
}

/// The address of the position snapshot of an account.
pub open spec fn snapshot_url(account: Seq<char>) -> Seq<char> {
    PORTFOLIO_URL@ + account
}

/// What the loop waits for in its phase: the end of the sleep, the price
/// listing, or the snapshot.
pub open spec fn awaited(s: SchedulerView) -> ActionView {
    match s.phase {
        PhaseView::Idle => ActionView::Sleep { secs: INTERVAL_SECS as nat },
        PhaseView::AwaitingPrices { .. } => ActionView::FetchPrices { url: PRICE_LISTING_URL@ },
        PhaseView::AwaitingSnapshot { .. } => ActionView::FetchSnapshot {
            url: snapshot_url(s.account),
        },
    }
}

/// The transition: what the state becomes on an event, and what is then to
/// be done.
///
/// - Idle, on waking: the cycle begins with the given timestamp, and the
///   price listing is asked for.
/// - Awaiting prices, on their arrival or failure: the price is resolved,
///   `1.0` standing in for a failure, and the snapshot is asked for.
/// - Awaiting the snapshot, on its arrival: its rows go to the store, then
///   the loop sleeps one interval. On its failure nothing goes to the
///   store, and the loop sleeps one interval.
/// - Any other event changes nothing: what the phase waits for is to be
///   done again.
pub open spec fn transition(s: SchedulerView, event: Event) -> (SchedulerView, ActionView) {
    match (s.phase, event) {
        (PhaseView::Idle, Event::Wake(now)) => (
            SchedulerView { phase: PhaseView::AwaitingPrices { stamp: now.spec_text() }, ..s },
            ActionView::FetchPrices { url: PRICE_LISTING_URL@ },
        ),
        (PhaseView::AwaitingPrices { stamp }, Event::Prices(fetched)) => (
            SchedulerView {
                phase: PhaseView::AwaitingSnapshot { stamp, price: resolved_price(fetched) },
                ..s
            },
            ActionView::FetchSnapshot { url: snapshot_url(s.account) },
        ),
        (PhaseView::AwaitingSnapshot { stamp, price }, Event::Snapshot(Ok(snapshot))) => {
            let written = emit(reconciled(snapshot, price, stamp));
            (
                SchedulerView { phase: PhaseView::Idle, ..s },
                ActionView::Store {
                    bytes: written.bytes,
                    failures: written.failures,
                    stamp,
                    sleep_secs: INTERVAL_SECS as nat,
                },
            )
        },
        (PhaseView::AwaitingSnapshot { stamp, price }, Event::Snapshot(Err(_))) => (
            SchedulerView { phase: PhaseView::Idle, ..s },
            ActionView::Sleep { secs: INTERVAL_SECS as nat },
        ),
        _ => (s, awaited(s)),
    }
}

impl Scheduler {
    /// The loop for an account, about to begin its first cycle at `now`;
    /// `store_existed` says whether the store was there before it was
    /// opened. Handed out with the loop: what opening the store asks to be
    /// written at once, which is the header line for a store that is new,
    /// and the first thing to do, which is to fetch the price listing.
    pub fn start(account: String, store_existed: bool, now: Timestamp) -> (r: (
        Scheduler,
        Batch,
        Action,
    ))
        ensures
            r.0@ == (SchedulerView {
                account: account@,
                header_due: header_due_after_open(store_existed),
                phase: PhaseView::AwaitingPrices { stamp: now.spec_text() },
            }),
            r.1@ == opening(store_existed),
            r.2@ == (ActionView::FetchPrices { url: PRICE_LISTING_URL@ }),
    {
        let (sink, header) = RecordSink::open(store_existed);
        let scheduler = Scheduler { account, sink, phase: Phase::AwaitingPrices { stamp: now } };
        (scheduler, header, Action::FetchPrices { url: String::from_str(PRICE_LISTING_URL) })
    }

    /// Where the loop stands.
    pub fn phase(&self) -> (r: &Phase)
        ensures
            r@ == self@.phase,
    {
        &self.phase
    }

    /// The tracked account.
    pub fn account(&self) -> (r: &str)
        ensures
            r@ == self@.account,
    {
        self.account.as_str()
    }

    /// Whether the store still lacks its header.
    pub fn needs_header(&self) -> (r: bool)
        ensures
            r == self@.header_due,
    {
        self.sink.needs_header()
    }

    /// Whether the loop sleeps between two cycles.
    pub fn is_idle(&self) -> (r: bool)
        ensures
            r == (self@.phase is Idle),
    {
        match &self.phase {
            Phase::Idle => true,
            _ => false,
        }
    }

    /// The loop after an event, and what is to be done next.
    pub fn step(self, event: Event) -> (r: (Scheduler, Action))
        ensures
            r.0@ == transition(self@, event).0,
            r.1@ == transition(self@, event).1,
    {
        let Scheduler { account, sink, phase } = self;
        match phase {
            Phase::Idle => match event {
                Event::Wake(now) => {
                    let phase = Phase::AwaitingPrices { stamp: now };
                    let next = Scheduler { account, sink, phase };
                    (next, Action::FetchPrices { url: String::from_str(PRICE_LISTING_URL) })
                },
                _ => (
                    Scheduler { account, sink, phase: Phase::Idle },
                    Action::Sleep { secs: INTERVAL_SECS },
                ),
            },
            Phase::AwaitingPrices { stamp } => match event {
                Event::Prices(fetched) => {
                    let price = match get_price(fetched) {
                        Ok(price) => price,
                        Err(_) => Decimal::one(),
                    };
                    let url = String::from_str(PORTFOLIO_URL).concat(account.as_str());
                    let next = Scheduler {
                        account,
                        sink,
                        phase: Phase::AwaitingSnapshot { stamp, price },
                    };
                    (next, Action::FetchSnapshot { url })
                },
                _ => (
                    Scheduler { account, sink, phase: Phase::AwaitingPrices { stamp } },
                    Action::FetchPrices { url: String::from_str(PRICE_LISTING_URL) },
                ),
            },
            Phase::AwaitingSnapshot { stamp, price } => match event {
                Event::Snapshot(Ok(snapshot)) => {
                    let rows = reconcile(&snapshot, &price, &stamp);
                    proof {
                        assert(views(rows@) =~= reconciled(snapshot, price@, stamp.spec_text()));
                    }
                    let batch = sink.append(&rows);
                    let action = Action::Store {
                        bytes: batch.bytes,
                        failures: batch.failures,
                        stamp: String::from_str(stamp.text()),
                        sleep_secs: INTERVAL_SECS,
                    };
                    (Scheduler { account, sink, phase: Phase::Idle }, action)
                },
                Event::Snapshot(Err(_)) => (
                    Scheduler { account, sink, phase: Phase::Idle },
                    Action::Sleep { secs: INTERVAL_SECS },
                ),
                _ => {
                    let url = String::from_str(PORTFOLIO_URL).concat(account.as_str());
                    (
                        Scheduler {
                            account,
                            sink,
                            phase: Phase::AwaitingSnapshot { stamp, price },
                        },
                        Action::FetchSnapshot { url },
                    )
                },
            },
        }
    }
}

/// A failed fetch of the price listing does not stop the cycle: the price
/// is `1.0`, and the snapshot is asked for.
pub proof fn lemma_failed_prices_fall_back(s: SchedulerView, stamp: Seq<char>, error: FetchError)
    requires
        s.phase == (PhaseView::AwaitingPrices { stamp }),
    ensures
        transition(s, Event::Prices(Err(error))).0.phase == (PhaseView::AwaitingSnapshot {
            stamp,
            price: one_view(),
        }),
        transition(s, Event::Prices(Err(error))).1 == (ActionView::FetchSnapshot {
            url: snapshot_url(s.account),
        }),
{
}

/// A failed fetch of the snapshot skips the cycle: nothing goes to the
/// store, and the loop sleeps one interval.
pub proof fn lemma_failed_snapshot_skips_cycle(
    s: SchedulerView,
    stamp: Seq<char>,
    price: DecimalView,
    error: FetchError,
)
    requires
        s.phase == (PhaseView::AwaitingSnapshot { stamp, price }),
    ensures
        transition(s, Event::Snapshot(Err(error))).0 == (SchedulerView {
            phase: PhaseView::Idle,
            ..s
        }),
        transition(s, Event::Snapshot(Err(error))).1 == (ActionView::Sleep {
            secs: INTERVAL_SECS as nat,
        }),
{
}

/// Whatever the fetch of the snapshot brought, the cycle ends: the loop is
/// idle, and what is to be done ends with a sleep of one interval.
pub proof fn lemma_cycle_ends_idle(
    s: SchedulerView,
    stamp: Seq<char>,
    price: DecimalView,
    fetched: Result<FarmResponse, FetchError>,
)
    requires
        s.phase == (PhaseView::AwaitingSnapshot { stamp, price }),
    ensures
        transition(s, Event::Snapshot(fetched)).0.phase is Idle,
        transition(s, Event::Snapshot(fetched)).0.account == s.account,
        match transition(s, Event::Snapshot(fetched)).1 {
            ActionView::Store { sleep_secs, .. } => sleep_secs == INTERVAL_SECS,
            ActionView::Sleep { secs } => secs == INTERVAL_SECS,
            _ => false,
        },
{
}

/// The rows that a cycle stores all carry the timestamp taken when the
/// cycle began, and stand in the order of the snapshot.
pub proof fn lemma_cycle_rows(snapshot: FarmResponse, price: DecimalView, stamp: Seq<char>, i: int)
    requires
        0 <= i < all_farms(snapshot.platforms@).len(),
    ensures
        reconciled(snapshot, price, stamp).len() == all_farms(snapshot.platforms@).len(),
        reconciled(snapshot, price, stamp)[i].date == stamp,
        reconciled(snapshot, price, stamp)[i] == row_of(
            all_farms(snapshot.platforms@)[i],
            price,
            stamp,
        ),
{
}

/// No cycle writes a header: what a step hands to the store is the rows of
/// the snapshot alone, and whether the store lacks its header is settled
/// when the loop starts and stays as it is.
pub proof fn lemma_steps_write_rows_alone(s: SchedulerView, event: Event)
    ensures
        transition(s, event).0.header_due == s.header_due,
        transition(s, event).0.account == s.account,
        match transition(s, event).1 {
            ActionView::Store { bytes, failures, stamp, .. } => s.phase is AwaitingSnapshot
                && event is Snapshot && event->Snapshot_0 is Ok && bytes == emit(
                reconciled(event->Snapshot_0->Ok_0, s.phase->AwaitingSnapshot_price, stamp),
            ).bytes && stamp == s.phase->AwaitingSnapshot_stamp,
            _ => true,
        },
{
}

} // verus!
