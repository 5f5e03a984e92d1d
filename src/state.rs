use vstd::prelude::*;
use vstd::string::StringSliceAdditionalSpecFns;
use crate::history::{admits_time, capped, lemma_pruned_admits, pruned, History};
use crate::parse::{parse_milli, parse_milli_spec};
use crate::speed::{estimate_speed, rate_per_second, rate_value, speed_of};

verus! {

/// How long plotted samples are kept, in microseconds.
pub const PLOT_HORIZON_US: u64 = 5_000_000;

/// Averaging window used where the entered one is not a positive number (5000 ms).
pub const DEFAULT_WINDOW_US: u64 = 5_000_000;

/// Shortest averaging window taken as a divisor (0.1 ms).
pub const MIN_WINDOW_US: u64 = 100;

/// Sensitivity at start, in thousandths of a count per inch (1600 DPI).
pub const DEFAULT_DPI_MILLI: u64 = 1_600_000;

/// What a background loop does after one step.
#[derive(PartialEq, Eq, Structural, Clone, Copy, Debug)]
pub enum LoopAction {
    /// The state is no longer running: leave the loop.
    Stop,
    /// Work was done: step again at once.
    Continue,
    /// Nothing to do: wait a short interval before the next step.
    Wait,
}

/// The averaging window, in microseconds, that the text (milliseconds) selects.
pub open spec fn window_spec(text: Seq<u8>) -> u64 {
    match parse_milli_spec(text) {
        Some(v) => if v == 0 {
            DEFAULT_WINDOW_US
        } else if v < MIN_WINDOW_US {
            MIN_WINDOW_US
        } else {
            v
        },
        None => DEFAULT_WINDOW_US,
    }
}

/// `m` raised to `s` where `s` exceeds it.
pub open spec fn raised_max(m: nat, s: nat) -> nat {
    if s > m {
        s
    } else {
        m
    }
}

/// The running maximum after the speeds `speeds`, starting from `m`.
pub open spec fn max_after(m: nat, speeds: Seq<nat>) -> nat
    decreases speeds.len(),
{
    if speeds.len() == 0 {
        m
    } else {
        raised_max(max_after(m, speeds.drop_last()), speeds.last())
    }
}

/// The running maximum never drops below its start nor below any speed seen,
/// and stays where it is while no speed exceeds it (after a reset, at zero).
pub proof fn lemma_max_speed_monotonic(m: nat, speeds: Seq<nat>)
    ensures
        max_after(m, speeds) >= m,
        forall|i: int| 0 <= i < speeds.len() ==> max_after(m, speeds) >= #[trigger] speeds[i],
        (forall|i: int| 0 <= i < speeds.len() ==> #[trigger] speeds[i] <= m) ==> max_after(
            m,
            speeds,
        ) == m,
    decreases speeds.len(),
{
    if speeds.len() > 0 {
        lemma_max_speed_monotonic(m, speeds.drop_last());
        assert forall|i: int| 0 <= i < speeds.len() implies max_after(m, speeds)
            >= #[trigger] speeds[i] by {
            if i < speeds.len() - 1 {
                assert(speeds.drop_last()[i] == speeds[i]);
            }
        }
        if forall|i: int| 0 <= i < speeds.len() ==> #[trigger] speeds[i] <= m {
            assert forall|i: int| 0 <= i < speeds.drop_last().len() implies
                #[trigger] speeds.drop_last()[i] <= m by {
                assert(speeds.drop_last()[i] == speeds[i]);
            }
            assert(speeds[speeds.len() - 1] <= m);
        }
    }
}

/// The averaging window, in microseconds, for text giving it in milliseconds.
/// Text that is no positive decimal gives `DEFAULT_WINDOW_US`; a window below
/// `MIN_WINDOW_US` is raised to it.
pub fn averaging_window_us(text: &str) -> (r: u64)
    ensures
        r == window_spec(text.spec_bytes()),
        r >= MIN_WINDOW_US,
{
    match parse_milli(text) {
        Some(v) => if v == 0 {
            DEFAULT_WINDOW_US
        } else if v < MIN_WINDOW_US {
            MIN_WINDOW_US
        } else {
            v
        },
        None => DEFAULT_WINDOW_US,
    }
}

/// The measurement record shared by the ingestion loop, the aggregator and
/// the display. Times are microseconds since start; speeds are nanometres
/// per second; rates are events per second.
pub struct MouseState {
    /// Motion events since the last aggregator tick.
    pub events_count: u64,
    /// Rate computed at the last aggregator tick.
    pub events_per_second: u128,
    /// Most recent motion.
    pub delta: (i32, i32),
    /// Cleared once, at shutdown.
    pub running: bool,
    /// Largest speed computed since start or the last reset.
    pub max_speed: u128,
    /// Sensitivity in thousandths of a count per inch.
    pub dpi_milli: u64,
    /// Time of the most recent motion event.
    pub last_event_time: Option<u64>,
    pub speed_history: History<u128>,
    pub polling_history: History<u128>,
    pub event_history: History<(i32, i32)>,
    /// Time of the last aggregator tick.
    pub last_polling_update: u64,
}

impl MouseState {
    pub open spec fn wf(&self) -> bool {
        &&& self.dpi_milli > 0
        &&& self.speed_history.wf()
        &&& self.polling_history.wf()
        &&& self.event_history.wf()
    }

    /// `now` is no earlier than anything recorded so far.
    pub open spec fn admits(&self, now: u64) -> bool {
        &&& admits_time(self.speed_history@, now)
        &&& admits_time(self.polling_history@, now)
        &&& admits_time(self.event_history@, now)
        &&& self.last_polling_update <= now
    }

    /// A running state at time zero, with empty histories and 1600 DPI.
    pub fn new() -> (r: Self)
        ensures
            r.wf(),
            r.running,
            r.events_count == 0,
            r.events_per_second == 0,
            r.delta == (0i32, 0i32),
            r.max_speed == 0,
            r.dpi_milli == DEFAULT_DPI_MILLI,
            r.last_event_time.is_none(),
            r.speed_history@.len() == 0,
            r.polling_history@.len() == 0,
            r.event_history@.len() == 0,
            r.last_polling_update == 0,
    {
        MouseState {
            events_count: 0,
            events_per_second: 0,
            delta: (0, 0),
            running: true,
            max_speed: 0,
            dpi_milli: DEFAULT_DPI_MILLI,
            last_event_time: None,
            speed_history: History::new(),
            polling_history: History::new(),
            event_history: History::new(),
            last_polling_update: 0,
        }
    }

    /// Whether `now` is no earlier than anything recorded so far.
    pub fn accepts_time(&self, now: u64) -> (r: bool)
        ensures
            r == self.admits(now),
    {
        self.speed_history.admits(now) && self.polling_history.admits(now)
            && self.event_history.admits(now) && self.last_polling_update <= now
    }

    /// Records one motion event `(dx, dy)` seen at `now`.
    pub fn record_motion(&mut self, now: u64, dx: i32, dy: i32)
        requires
            old(self).wf(),
            old(self).admits(now),
        ensures
            final(self).wf(),
            final(self).admits(now),
            final(self).event_history@ == capped(old(self).event_history@.push((now, (dx, dy)))),
            final(self).events_count == if old(self).events_count == u64::MAX {
                u64::MAX
            } else {
                (old(self).events_count + 1) as u64
            },
            final(self).delta == (dx, dy),
            final(self).last_event_time == Some(now),
            final(self).running == old(self).running,
            final(self).events_per_second == old(self).events_per_second,
            final(self).max_speed == old(self).max_speed,
            final(self).dpi_milli == old(self).dpi_milli,
            final(self).speed_history@ == old(self).speed_history@,
            final(self).polling_history@ == old(self).polling_history@,
            final(self).last_polling_update == old(self).last_polling_update,
    {
        self.last_event_time = Some(now);
        self.events_count = self.events_count.saturating_add(1);
        self.delta = (dx, dy);
        self.event_history.push(now, (dx, dy));
        assert(admits_time(self.event_history@, now));
    }

    /// One turn of the ingestion loop, given what the event source handed over.
    /// A stopped state is left untouched; an event is recorded; no event means wait.
    pub fn ingest_step(&mut self, now: u64, event: Option<(i32, i32)>) -> (r: LoopAction)
        requires
            old(self).wf(),
            old(self).admits(now),
        ensures
            final(self).wf(),
            final(self).admits(now),
            !old(self).running ==> r == LoopAction::Stop && *final(self) == *old(self),
            old(self).running && event.is_none() ==> r == LoopAction::Wait && *final(self)
                == *old(self),
            old(self).running && event.is_some() ==> {
                &&& r == LoopAction::Continue
                &&& final(self).event_history@ == capped(
                    old(self).event_history@.push((now, event.unwrap())),
                )
                &&& final(self).events_count == if old(self).events_count == u64::MAX {
                    u64::MAX
                } else {
                    (old(self).events_count + 1) as u64
                }
                &&& final(self).delta == event.unwrap()
                &&& final(self).last_event_time == Some(now)
                &&& final(self).running
                &&& final(self).events_per_second == old(self).events_per_second
                &&& final(self).max_speed == old(self).max_speed
                &&& final(self).dpi_milli == old(self).dpi_milli
                &&& final(self).speed_history@ == old(self).speed_history@
                &&& final(self).polling_history@ == old(self).polling_history@
                &&& final(self).last_polling_update == old(self).last_polling_update
            },
    {
        if !self.running {
            return LoopAction::Stop;
        }
        match event {
            Some(d) => {
                self.record_motion(now, d.0, d.1);
                LoopAction::Continue
            },
            None => LoopAction::Wait,
        }
    }

    /// An aggregator tick: once `interval_us` has passed since the last tick,
    /// turns the events counted since into a rate, appends it to the polling
    /// history and restarts the count. Returns whether a tick was taken.
    pub fn polling_tick(&mut self, now: u64, interval_us: u64) -> (r: bool)
        requires
            old(self).wf(),
            old(self).admits(now),
            interval_us > 0,
        ensures
            final(self).wf(),
            final(self).admits(now),
            r == (now - old(self).last_polling_update >= interval_us),
            r ==> {
                let rate = rate_value(old(self).events_count as nat, interval_us as nat);
                &&& final(self).events_per_second == rate
                &&& final(self).polling_history@ == capped(
                    old(self).polling_history@.push((now, rate as u128)),
                )
                &&& final(self).events_count == 0
                &&& final(self).last_polling_update == now
                &&& final(self).event_history@ == old(self).event_history@
                &&& final(self).speed_history@ == old(self).speed_history@
                &&& final(self).running == old(self).running
                &&& final(self).dpi_milli == old(self).dpi_milli
                &&& final(self).max_speed == old(self).max_speed
            },
            !r ==> *final(self) == *old(self),
    {
        if now - self.last_polling_update >= interval_us {
            let rate = rate_per_second(self.events_count, interval_us);
            self.events_per_second = rate;
            self.polling_history.push(now, rate);
            self.events_count = 0;
            self.last_polling_update = now;
            assert(admits_time(self.polling_history@, now));
            true
        } else {
            false
        }
    }

    /// One turn of the aggregator loop: a stopped state is left untouched;
    /// otherwise a tick is taken where due, and the loop waits.
    pub fn aggregate_step(&mut self, now: u64, interval_us: u64) -> (r: LoopAction)
        requires
            old(self).wf(),
            old(self).admits(now),
            interval_us > 0,
        ensures
            final(self).wf(),
            final(self).admits(now),
            !old(self).running ==> r == LoopAction::Stop && *final(self) == *old(self),
            old(self).running ==> {
                &&& r == LoopAction::Wait
                &&& final(self).running
                &&& if now - old(self).last_polling_update >= interval_us {
                    let rate = rate_value(old(self).events_count as nat, interval_us as nat);
                    &&& final(self).events_per_second == rate
                    &&& final(self).polling_history@ == capped(
                        old(self).polling_history@.push((now, rate as u128)),
                    )
                    &&& final(self).events_count == 0
                    &&& final(self).last_polling_update == now
                    &&& final(self).event_history@ == old(self).event_history@
                    &&& final(self).speed_history@ == old(self).speed_history@
                    &&& final(self).dpi_milli == old(self).dpi_milli
                    &&& final(self).max_speed == old(self).max_speed
                } else {
                    *final(self) == *old(self)
                }
            },
    {
        if !self.running {
            return LoopAction::Stop;
        }
        let _ = self.polling_tick(now, interval_us);
        LoopAction::Wait
    }

    /// One display refresh at `now`, with the averaging window given as text in
    /// milliseconds: prunes the plotted histories to `PLOT_HORIZON_US` and the
    /// motion events to the window, computes the speed over what remains,
    /// raises the maximum and appends the speed. Returns the speed.
    pub fn refresh(&mut self, now: u64, window_text: &str) -> (r: u128)
        requires
            old(self).wf(),
            old(self).admits(now),
        ensures
            final(self).wf(),
            final(self).admits(now),
            final(self).polling_history@ == pruned(
                old(self).polling_history@,
                now,
                PLOT_HORIZON_US,
            ),
            final(self).event_history@ == pruned(
                old(self).event_history@,
                now,
                window_spec(window_text.spec_bytes()),
            ),
            r == speed_of(
                final(self).event_history@,
                old(self).dpi_milli as nat,
                window_spec(window_text.spec_bytes()) as nat,
            ),
            (exists|j: int|
                0 <= j < final(self).event_history@.len()
                    && (#[trigger] final(self).event_history@[j]).1 != (0i32, 0i32)) ==> r > 0,
            final(self).max_speed == raised_max(old(self).max_speed as nat, r as nat),
            final(self).speed_history@ == capped(
                pruned(old(self).speed_history@, now, PLOT_HORIZON_US).push((now, r)),
            ),
            final(self).events_count == old(self).events_count,
            final(self).events_per_second == old(self).events_per_second,
            final(self).running == old(self).running,
            final(self).dpi_milli == old(self).dpi_milli,
            final(self).last_polling_update == old(self).last_polling_update,
            final(self).delta == old(self).delta,
            final(self).last_event_time == old(self).last_event_time,
    {
        proof {
            lemma_pruned_admits(self.polling_history@, now, PLOT_HORIZON_US, now);
            lemma_pruned_admits(self.speed_history@, now, PLOT_HORIZON_US, now);
        }
        self.polling_history.prune(now, PLOT_HORIZON_US);
        self.speed_history.prune(now, PLOT_HORIZON_US);
        let window = averaging_window_us(window_text);
        proof {
            lemma_pruned_admits(self.event_history@, now, window, now);
        }
        self.event_history.prune(now, window);
        let speed = estimate_speed(&self.event_history, self.dpi_milli, window);
        if speed > self.max_speed {
            self.max_speed = speed;
        }
        self.speed_history.push(now, speed);
        assert(admits_time(self.speed_history@, now));
        speed
    }

    /// Sets the sensitivity from text giving it in counts per inch. Text that
    /// is no positive decimal leaves it unchanged. Returns whether it changed.
    pub fn set_dpi_text(&mut self, text: &str) -> (r: bool)
        requires
            old(self).wf(),
        ensures
            final(self).wf(),
            r == (parse_milli_spec(text.spec_bytes()) is Some && parse_milli_spec(
                text.spec_bytes(),
            ).unwrap() > 0),
            r ==> final(self).dpi_milli == parse_milli_spec(text.spec_bytes()).unwrap(),
            !r ==> *final(self) == *old(self),
            final(self).max_speed == old(self).max_speed,
            final(self).running == old(self).running,
            final(self).speed_history@ == old(self).speed_history@,
            final(self).polling_history@ == old(self).polling_history@,
            final(self).event_history@ == old(self).event_history@,
    {
        match parse_milli(text) {
            Some(v) => if v > 0 {
                self.dpi_milli = v;
                true
            } else {
                false
            },
            None => false,
        }
    }

    /// Sets the maximum speed back to zero.
    pub fn reset_max_speed(&mut self)
        ensures
            final(self).max_speed == 0,
            *final(self) == (MouseState { max_speed: 0, ..*old(self) }),
    {
        self.max_speed = 0;
    }

    /// Clears the running flag: both background loops stop at their next step.
    pub fn stop(&mut self)
        ensures
            !final(self).running,
            *final(self) == (MouseState { running: false, ..*old(self) }),
    {
        self.running = false;
    }
}

} // verus!
