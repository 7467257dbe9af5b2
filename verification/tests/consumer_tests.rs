use logmonitoring::consumer::errorwatcher::ErrorWatcher;
use logmonitoring::consumer::Consumer;
use logmonitoring::parser::HttpLog;

#[test]
fn consumer_should_ingest_errors() {
    let mut error_watcher = ErrorWatcher::new();
    let http_log1 = HttpLog {
        status: String::from("200"),
        ..Default::default()
    };
    let http_log2 = HttpLog {
        status: String::from("404"),
        ..Default::default()
    };
    let http_log3 = HttpLog {
        status: String::from("500"),
        ..Default::default()
    };

    error_watcher.ingest(&http_log1);
    assert_eq!(error_watcher.total_hits(), 1);
    assert_eq!(error_watcher.count_4xx(), None);
    assert_eq!(error_watcher.count_5xx(), None);

    error_watcher.ingest(&http_log2);
    assert_eq!(error_watcher.total_hits(), 2);
    assert_eq!(error_watcher.count_4xx(), Some(1));
    assert_eq!(error_watcher.count_5xx(), None);

    error_watcher.ingest(&http_log3);
    assert_eq!(error_watcher.total_hits(), 3);
    assert_eq!(error_watcher.count_4xx(), Some(1));
    assert_eq!(error_watcher.count_5xx(), Some(1));
}

#[test]
fn errorwatcher_should_ingest_errors() {
    let mut error_watcher = ErrorWatcher::new();
    let http_log1 = HttpLog {
        status: String::from("200"),
        ..Default::default()
    };
    let http_log2 = HttpLog {
        status: String::from("404"),
        ..Default::default()
    };
    let http_log3 = HttpLog {
        status: String::from("500"),
        ..Default::default()
    };

    error_watcher.ingest(&http_log1);
    assert_eq!(error_watcher.total_hits(), 1);
    assert_eq!(error_watcher.count_4xx(), None);
    assert_eq!(error_watcher.count_5xx(), None);

    error_watcher.ingest(&http_log2);
    assert_eq!(error_watcher.total_hits(), 2);
    assert_eq!(error_watcher.count_4xx(), Some(1));
    assert_eq!(error_watcher.count_5xx(), None);

    error_watcher.ingest(&http_log3);
    assert_eq!(error_watcher.total_hits(), 3);
    assert_eq!(error_watcher.count_4xx(), Some(1));
    assert_eq!(error_watcher.count_5xx(), Some(1));
}

#[test]
fn error_rates_are_reported_with_two_decimals() {
    let mut error_watcher = ErrorWatcher::new();
    for status in ["200", "404", "500"] {
        let http_log = HttpLog {
            status: String::from(status),
            ..Default::default()
        };
        error_watcher.ingest(&http_log);
    }
    assert_eq!(
        error_watcher.report(),
        "  Errors rate:\n    4xx: 33.33%\n    5xx: 33.33%\n"
    );
}

#[test]
fn report_is_idempotent_and_safe_before_ingestion() {
    let error_watcher = ErrorWatcher::new();
    let first = error_watcher.report();
    let second = error_watcher.report();
    assert_eq!(first, second);
    assert_eq!(first, "  Errors rate:\n");
}
