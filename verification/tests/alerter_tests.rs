use chrono::TimeZone;
use logmonitoring::consumer::alerter::Alerter;
use logmonitoring::consumer::alerter::AlertState;
use logmonitoring::consumer::alerter::CycleOutcome;
use logmonitoring::consumer::Consumer;
use logmonitoring::parser::HttpLog;

fn log_with_time(time: &str) -> HttpLog {
    HttpLog {
        time: String::from(time),
        ..Default::default()
    }
}

#[test]
fn should_ingest_dates() {
    let mut alerter = Alerter::new(5, 120);
    let http_log = log_with_time("05/Jun/2018:20:55:45 +0200");

    alerter.ingest(&http_log);

    let expected_time = chrono::FixedOffset::east_opt(7200)
        .unwrap()
        .with_ymd_and_hms(2018, 6, 5, 20, 55, 45)
        .unwrap()
        .timestamp();
    assert_eq!(alerter.events_list(), vec![expected_time]);
    assert_eq!(expected_time, 1528224945);
    assert_eq!(alerter.current_hits(), 1);
    assert_eq!(alerter.total_hits(), 1);
}

#[test]
fn malformed_timestamp_is_a_silent_no_op() {
    let mut alerter = Alerter::new(5, 120);
    alerter.ingest(&log_with_time("not a timestamp"));
    assert_eq!(alerter.events_list(), Vec::<i64>::new());
    assert_eq!(alerter.total_hits(), 0);
    assert_eq!(alerter.state(), AlertState::Normal);
}

#[test]
fn six_events_in_one_second_raise_and_then_recover() {
    let mut alerter = Alerter::new(5, 1);
    for _ in 0..6 {
        alerter.ingest(&log_with_time("05/Jun/2018:20:55:45 +0000"));
    }
    let t0 = alerter.events_list()[0];
    assert_eq!(alerter.current_hits(), 6);

    // the 6 events within one second exceed 5 requests per second
    let outcome = alerter.advance(t0);
    assert_eq!(outcome, CycleOutcome::AlertRaised);
    assert_eq!(
        alerter.state(),
        AlertState::Active {
            raised_at: t0,
            hits: 6
        }
    );

    // with no further events the window empties and the alert recovers,
    // keeping the original raise time
    let outcome = alerter.advance(t0 + 2);
    assert_eq!(outcome, CycleOutcome::AlertRecovered);
    assert_eq!(
        alerter.state(),
        AlertState::Recovered {
            raised_at: t0,
            hits: 6,
            recovered_at: t0 + 2
        }
    );
    assert_eq!(alerter.current_hits(), 0);

    // a repeated cycle at the same instant changes nothing
    let outcome = alerter.advance(t0 + 2);
    assert_eq!(outcome, CycleOutcome::NoChange);
    assert_eq!(
        alerter.state(),
        AlertState::Recovered {
            raised_at: t0,
            hits: 6,
            recovered_at: t0 + 2
        }
    );
}

#[test]
fn no_duplicate_raise_while_alerting() {
    let mut alerter = Alerter::new(1, 1);
    for _ in 0..3 {
        alerter.ingest(&log_with_time("05/Jun/2018:20:55:45 +0000"));
    }
    let t0 = alerter.events_list()[0];
    assert_eq!(alerter.advance(t0), CycleOutcome::AlertRaised);
    // still above the threshold: the alert stays, and is not re-raised
    assert_eq!(alerter.advance(t0), CycleOutcome::NoChange);
    assert_eq!(
        alerter.state(),
        AlertState::Active {
            raised_at: t0,
            hits: 3
        }
    );
}

#[test]
fn alerter_reports_each_state() {
    let mut alerter = Alerter::new(5, 1);
    assert_eq!(alerter.report(), "  No alerts\n");
    for _ in 0..6 {
        alerter.ingest(&log_with_time("05/Jun/2018:20:55:45 +0000"));
    }
    let t0 = alerter.events_list()[0];
    alerter.advance(t0);
    assert_eq!(
        alerter.report(),
        format!(
            "  High traffic generated an alert - hits = 6, triggered at {}\n",
            t0
        )
    );
    alerter.advance(t0 + 2);
    assert_eq!(
        alerter.report(),
        format!("  Alert raised at {} and recovered at {}\n", t0, t0 + 2)
    );
}
