use logmonitoring::Config;
use logmonitoring::Monitor;

#[test]
fn config_holds_the_filename() {
    let config = Config {
        filename: String::from("access.log"),
    };
    assert_eq!(config.filename, "access.log");
}

#[test]
fn a_malformed_line_changes_no_consumer_state() {
    let mut monitor = Monitor::new(5, 120);
    monitor.handle_line(
        "204.249.225.59 - - [05/Jun/2018:20:55:45 +0000] \"GET /pub/a.html HTTP/1.0\" 404 100",
    );
    let before = monitor.report_all();

    // missing the user field: the line is skipped and nothing moves
    monitor.handle_line("204.249.225.59 - [05/Jun/2018:20:55:45 +0000] \"GET /x HTTP/1.0\" 200 1");
    let after = monitor.report_all();

    assert_eq!(before, after);
}

#[test]
fn a_batch_feeds_every_consumer_in_order() {
    let mut monitor = Monitor::new(5, 120);
    let contents = "204.249.225.59 - - [05/Jun/2018:20:55:45 +0000] \"GET /pub/a.html HTTP/1.0\" 404 100\nnot a log line\n127.0.0.1 - - [05/Jun/2018:20:55:46 +0000] \"GET / HTTP/1.0\" 200 50";
    monitor.handle_batch(contents);
    monitor.advance_alerter(1528232146);
    assert_eq!(
        monitor.report_all(),
        "  Errors rate:\n    4xx: 50.00%\n  Most requested sections:\n    /pub 1\n    / 1\n  Most active hosts:\n    204.249.225.59 1\n    127.0.0.1 1\n  No alerts\n"
    );
}

#[test]
fn repeated_reports_are_identical() {
    let mut monitor = Monitor::new(5, 120);
    monitor.handle_line(
        "204.249.225.59 - - [05/Jun/2018:20:55:45 +0000] \"GET /pub/a.html HTTP/1.0\" 404 100",
    );
    let first = monitor.report_all();
    let second = monitor.report_all();
    assert_eq!(first, second);
}
