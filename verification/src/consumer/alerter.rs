//! The traffic alerter: a sliding-window request-rate monitor with a
//! hysteresis state machine.
//!
//! Each ingested record contributes its own timestamp to an ordered event
//! window.  On every report cycle the expired prefix of the window is
//! discarded, the remaining rate is compared with the threshold, and the
//! alert state moves between `Normal` and `Alerting`: a raise and the
//! matching recovery are each announced exactly once, and the record of a
//! recovered alert is retained so the recovery can name the original raise.
use crate::consumer::Consumer;
use crate::parser::HttpLog;
use crate::text::dec_digits;
use crate::text::dec_int;
use crate::text::i64_to_dec;
use crate::text::u64_to_dec;
use std::collections::VecDeque;
use vstd::prelude::*;
use vstd::string::StringExecFns;

verus! {

/// The instant a timestamp string denotes, in seconds since the epoch, if
/// the string is well-formed.
pub uninterp spec fn instant_of(s: Seq<char>) -> Option<i64>;

/// Relies on chrono's `DateTime::parse_from_str` with the fixed access-log
/// timestamp format (day/month-name/year:time, then a numeric zone offset)
/// and on `DateTime::timestamp`.  Both are total functions of the input
/// string alone — the offset is part of the string, and month names are not
/// localized — so the composed result is given a name and nothing more.
#[verifier::external_body]
fn parse_instant(s: &str) -> (r: Option<i64>)
    ensures
        r == instant_of(s@),
{
    match chrono::DateTime::parse_from_str(s, "%d/%b/%Y:%T %z") {
        Ok(dt) => Some(dt.timestamp()),
        Err(_) => None,
    }
}

/// Relies on chrono's `Local::now` and `DateTime::timestamp` for the
/// current instant.  The clock is outside the machine's control, so nothing
/// is assumed of the returned value; every caller must cope with any
/// instant.
#[verifier::external_body]
pub(crate) fn now_epoch_seconds() -> i64 {
    chrono::Local::now().timestamp()
}

/// The alert portion of the alerter's state.  A recovered alert is kept,
/// not cleared, until the next raise supersedes it.
#[derive(Clone, Copy, PartialEq, Eq, Structural, Debug)]
pub enum AlertState {
    Normal,
    Active { raised_at: i64, hits: u64 },
    Recovered { raised_at: i64, hits: u64, recovered_at: i64 },
}

/// What one report cycle did to the alert state; a raise and a recovery
/// are each reported exactly once, at the cycle on which they occur.
#[derive(Clone, Copy, PartialEq, Eq, Structural, Debug)]
pub enum CycleOutcome {
    NoChange,
    AlertRaised,
    AlertRecovered,
}

/// The mathematical content of the alerter's state.
#[verifier::ext_equal]
pub ghost struct AlerterView {
    pub events: Seq<i64>,
    pub alert: AlertState,
    pub total: u64,
    pub threshold: u32,
    pub window: u32,
}

/// One ingestion step: a record with a well-formed timestamp joins the
/// event window; one without is a silent no-op, as is a record at the
/// (practically unreachable) counter ceiling.
pub open spec fn alerter_ingest(v: AlerterView, time: Seq<char>) -> AlerterView {
    match instant_of(time) {
        Some(t) => {
            if v.total < u64::MAX {
                AlerterView { events: v.events.push(t), total: (v.total + 1) as u64, ..v }
            } else {
                v
            }
        },
        None => v,
    }
}

/// The length of the expired prefix of the event window: the events older
/// than the cutoff that stand in front of the first current one.
pub open spec fn drop_count(events: Seq<i64>, cutoff: int) -> int
    decreases events.len(),
{
    if events.len() == 0 {
        0
    } else if events[0] < cutoff {
        1 + drop_count(events.drop_first(), cutoff)
    } else {
        0
    }
}

/// One report cycle at instant `now`: discard the expired prefix, compare
/// the windowed rate with the threshold, and move the hysteresis machine.
/// `rate > threshold` is compared as `count > threshold * window`, which
/// avoids division; the raise happens only from a non-alerting state and
/// the recovery only from an alerting one, so neither is ever repeated.
pub open spec fn alerter_step(v: AlerterView, now: i64) -> (AlerterView, CycleOutcome) {
    let kept = v.events.skip(drop_count(v.events, now - v.window));
    let stepped = AlerterView { events: kept, ..v };
    if kept.len() > v.threshold * v.window {
        if !(v.alert is Active) {
            (
                AlerterView {
                    alert: AlertState::Active { raised_at: now, hits: kept.len() as u64 },
                    ..stepped
                },
                CycleOutcome::AlertRaised,
            )
        } else {
            (stepped, CycleOutcome::NoChange)
        }
    } else {
        match v.alert {
            AlertState::Active { raised_at, hits } => (
                AlerterView {
                    alert: AlertState::Recovered { raised_at, hits, recovered_at: now },
                    ..stepped
                },
                CycleOutcome::AlertRecovered,
            ),
            _ => (stepped, CycleOutcome::NoChange),
        }
    }
}

/// The alerter's summary: the current alert, or the retained record of the
/// last one.  Instants are shown in seconds since the epoch; prettier
/// date rendering is a presentation concern outside the core.
pub open spec fn alerter_report(v: AlerterView) -> Seq<char> {
    match v.alert {
        AlertState::Normal => "  No alerts\n"@,
        AlertState::Active { raised_at, hits } => "  High traffic generated an alert - hits = "@
            + dec_digits(hits as nat) + ", triggered at "@ + dec_int(raised_at as int) + "\n"@,
        AlertState::Recovered { raised_at, hits, recovered_at } => "  Alert raised at "@ + dec_int(
            raised_at as int,
        ) + " and recovered at "@ + dec_int(recovered_at as int) + "\n"@,
    }
}

/// Where the expiry scan stops, `drop_count` is pinned.
proof fn lemma_drop_count_at(events: Seq<i64>, cutoff: int, i: int)
    requires
        0 <= i <= events.len(),
        forall|k: int| 0 <= k < i ==> events[k] < cutoff,
        i == events.len() || !(events[i] < cutoff),
    ensures
        drop_count(events, cutoff) == i,
    decreases events.len(),
{
    if events.len() > 0 && events[0] < cutoff {
        let t = events.drop_first();
        assert forall|k: int| 0 <= k < i - 1 implies t[k] < cutoff by {
            assert(t[k] == events[k + 1]);
        }
        assert(i >= 1);
        if i - 1 < t.len() {
            assert(t[i - 1] == events[i]);
        }
        lemma_drop_count_at(t, cutoff, i - 1);
    }
}

proof fn lemma_drop_count_bounds(events: Seq<i64>, cutoff: int)
    ensures
        0 <= drop_count(events, cutoff) <= events.len(),
        drop_count(events, cutoff) < events.len() ==> !(events[drop_count(events, cutoff)]
            < cutoff),
    decreases events.len(),
{
    if events.len() > 0 && events[0] < cutoff {
        let t = events.drop_first();
        lemma_drop_count_bounds(t, cutoff);
        if drop_count(events, cutoff) < events.len() {
            assert(events[drop_count(events, cutoff)] == t[drop_count(t, cutoff)]);
        }
    }
}

/// Report cycles are idempotent: a second cycle at the same instant, with
/// no ingestion in between, changes nothing and reports nothing.
pub proof fn lemma_cycle_idempotent(v: AlerterView, now: i64)
    ensures
        alerter_step(alerter_step(v, now).0, now) == (
            alerter_step(v, now).0,
            CycleOutcome::NoChange,
        ),
{
    let cutoff = now - v.window;
    let dc = drop_count(v.events, cutoff);
    lemma_drop_count_bounds(v.events, cutoff);
    let kept = v.events.skip(dc);
    let v1 = alerter_step(v, now).0;
    assert(v1.events == kept);
    assert(drop_count(kept, cutoff) == 0) by {
        if kept.len() > 0 {
            assert(kept[0] == v.events[dc]);
        }
        lemma_drop_count_at(kept, cutoff, 0);
    }
    assert(kept.skip(0) =~= kept);
    let v2 = alerter_step(v1, now).0;
    assert(v2 =~= v1);
    if kept.len() > v.threshold * v.window {
        assert(v1.alert is Active);
        assert(alerter_step(v1, now).1 == CycleOutcome::NoChange);
    } else {
        assert(!(v1.alert is Active));
        assert(alerter_step(v1, now).1 == CycleOutcome::NoChange);
    }
}

/// Watches the rate of recent events and raises or recovers alerts.
pub struct Alerter {
    events_time: VecDeque<i64>,
    current_alert: AlertState,
    total_hits: u64,
    threshold: u32,
    window_secs: u32,
}

impl View for Alerter {
    type V = AlerterView;

    closed spec fn view(&self) -> AlerterView {
        AlerterView {
            events: self.events_time@,
            alert: self.current_alert,
            total: self.total_hits,
            threshold: self.threshold,
            window: self.window_secs,
        }
    }
}

impl Alerter {
    /// A fresh alerter in the `Normal` state.  The window must be at least
    /// one second, since the rate is measured per second of window.
    pub fn new(threshold: u32, window_secs: u32) -> (r: Alerter)
        requires
            window_secs >= 1,
        ensures
            r@ == (AlerterView {
                events: Seq::<i64>::empty(),
                alert: AlertState::Normal,
                total: 0,
                threshold,
                window: window_secs,
            }),
            r.wf(),
    {
        Alerter {
            events_time: VecDeque::new(),
            current_alert: AlertState::Normal,
            total_hits: 0,
            threshold,
            window_secs,
        }
    }

    pub fn total_hits(&self) -> (r: u64)
        ensures
            r == self@.total,
    {
        self.total_hits
    }

    /// The number of events currently retained in the window.
    pub fn current_hits(&self) -> (r: u64)
        ensures
            r == self@.events.len(),
    {
        self.events_time.len() as u64
    }

    pub fn state(&self) -> (r: AlertState)
        ensures
            r == self@.alert,
    {
        self.current_alert
    }

    /// The retained event instants, oldest first.
    pub fn events_list(&self) -> (r: Vec<i64>)
        ensures
            r@ == self@.events,
    {
        let mut r: Vec<i64> = Vec::new();
        let mut i: usize = 0;
        while i < self.events_time.len()
            invariant
                i <= self.events_time@.len(),
                r@ == self.events_time@.subrange(0, i as int),
            decreases self.events_time@.len() - i,
        {
            r.push(self.events_time[i]);
            proof {
                assert(r@ =~= self.events_time@.subrange(0, i as int + 1));
            }
            i = i + 1;
        }
        proof {
            assert(self.events_time@.subrange(0, self.events_time@.len() as int)
                =~= self.events_time@);
        }
        r
    }

    /// One report cycle at instant `now`: expire the window's old prefix
    /// and move the hysteresis machine, reporting a transition at most
    /// once.
    pub fn advance(&mut self, now: i64) -> (o: CycleOutcome)
        requires
            old(self).wf(),
        ensures
            final(self)@ == alerter_step(old(self)@, now).0,
            o == alerter_step(old(self)@, now).1,
            final(self).wf(),
    {
        let ghost orig = self.events_time@;
        let ghost cutoff = now - self@.window;
        let orig_len = self.events_time.len();
        let mut popped: usize = 0;
        loop
            invariant
                orig.len() == orig_len,
                popped <= orig.len(),
                self.events_time@ == orig.skip(popped as int),
                forall|k: int| 0 <= k < popped ==> orig[k] < cutoff,
                self.current_alert == old(self).current_alert,
                self.total_hits == old(self).total_hits,
                self.threshold == old(self).threshold,
                self.window_secs == old(self).window_secs,
                cutoff == now - self.window_secs,
                orig == old(self)@.events,
            ensures
                self.events_time@ == orig.skip(drop_count(orig, cutoff)),
                self.current_alert == old(self).current_alert,
                self.total_hits == old(self).total_hits,
                self.threshold == old(self).threshold,
                self.window_secs == old(self).window_secs,
                cutoff == now - self.window_secs,
                orig == old(self)@.events,
            decreases orig.len() - popped,
        {
            if self.events_time.len() == 0 {
                proof {
                    lemma_drop_count_at(orig, cutoff, popped as int);
                }
                break ;
            }
            let t = self.events_time[0];
            proof {
                assert(t == orig[popped as int]);
            }
            let expired = (t as i128) < (now as i128) - (self.window_secs as i128);
            if !expired {
                proof {
                    lemma_drop_count_at(orig, cutoff, popped as int);
                }
                break ;
            }
            self.events_time.pop_front();
            proof {
                assert(popped < orig.len());
                assert(orig.skip(popped as int).subrange(1, orig.skip(popped as int).len() as int)
                    =~= orig.skip(popped as int + 1));
            }
            popped = popped + 1;
        }
        let count = self.events_time.len();
        proof {
            vstd::arithmetic::mul::lemma_mul_upper_bound(
                self.threshold as int,
                u32::MAX as int,
                self.window_secs as int,
                u32::MAX as int,
            );
        }
        let over = (count as u128) > (self.threshold as u128) * (self.window_secs as u128);
        let outcome: CycleOutcome;
        if over {
            match self.current_alert {
                AlertState::Active { .. } => {
                    outcome = CycleOutcome::NoChange;
                },
                _ => {
                    self.current_alert = AlertState::Active {
                        raised_at: now,
                        hits: count as u64,
                    };
                    outcome = CycleOutcome::AlertRaised;
                },
            }
        } else {
            match self.current_alert {
                AlertState::Active { raised_at, hits } => {
                    self.current_alert = AlertState::Recovered { raised_at, hits, recovered_at: now };
                    outcome = CycleOutcome::AlertRecovered;
                },
                _ => {
                    outcome = CycleOutcome::NoChange;
                },
            }
        }
        proof {
            assert(self@ =~= alerter_step(old(self)@, now).0);
        }
        outcome
    }
}

impl Consumer for Alerter {
    open spec fn wf(&self) -> bool {
        self@.window >= 1
    }

    fn ingest(&mut self, http_log: &HttpLog)
        ensures
            final(self)@ == alerter_ingest(old(self)@, http_log@.time),
    {
        match parse_instant(http_log.time.as_str()) {
            Some(t) => {
                if self.total_hits < u64::MAX {
                    self.events_time.push_back(t);
                    self.total_hits = self.total_hits + 1;
                }
            },
            None => {},
        }
    }

    fn report(&self) -> (r: String)
        ensures
            r@ == alerter_report(self@),
    {
        let mut r = String::new();
        match self.current_alert {
            AlertState::Normal => {
                r.append("  No alerts\n");
            },
            AlertState::Active { raised_at, hits } => {
                r.append("  High traffic generated an alert - hits = ");
                r.append(u64_to_dec(hits).as_str());
                r.append(", triggered at ");
                r.append(i64_to_dec(raised_at).as_str());
                r.append("\n");
            },
            AlertState::Recovered { raised_at, hits, recovered_at } => {
                r.append("  Alert raised at ");
                r.append(i64_to_dec(raised_at).as_str());
                r.append(" and recovered at ");
                r.append(i64_to_dec(recovered_at).as_str());
                r.append("\n");
            },
        }
        proof {
            assert(r@ =~= alerter_report(self@));
        }
        r
    }
}

} // verus!
