use logmonitoring::consumer::ranker::Ranker;
use logmonitoring::consumer::Consumer;
use logmonitoring::parser::HttpLog;

fn log_with_request(request: &str) -> HttpLog {
    HttpLog {
        request: String::from(request),
        ..Default::default()
    }
}

#[test]
fn should_ingest_sections_from_root_url() {
    let mut ranker = Ranker::new();
    let http_log = log_with_request("GET / HTTP/1.0");

    ranker.ingest(&http_log);

    assert_eq!(*ranker.sections_vec(), vec![(String::from("/"), 1)]);
}

#[test]
fn should_ingest_sections_from_simple_url() {
    let mut ranker = Ranker::new();
    let http_log = log_with_request("GET /domain HTTP/1.0");

    ranker.ingest(&http_log);

    assert_eq!(*ranker.sections_vec(), vec![(String::from("/domain"), 1)]);
}

#[test]
fn should_ingest_sections_from_long_url() {
    let mut ranker = Ranker::new();
    let http_log = log_with_request("GET /pub/job/vk/view17.jpg HTTP/1.0");

    ranker.ingest(&http_log);

    assert_eq!(*ranker.sections_vec(), vec![(String::from("/pub"), 1)]);
}

#[test]
fn should_ingest_host() {
    let mut ranker = Ranker::new();
    let http_log = HttpLog {
        host: String::from("204.249.225.59"),
        ..Default::default()
    };

    ranker.ingest(&http_log);

    assert_eq!(
        *ranker.hosts_vec(),
        vec![(String::from("204.249.225.59"), 1)]
    );
}

#[test]
fn should_not_ingest_empty_host() {
    let mut ranker = Ranker::new();
    let http_log = HttpLog {
        host: String::from("-"),
        ..Default::default()
    };

    ranker.ingest(&http_log);

    assert_eq!(*ranker.hosts_vec(), Vec::<(String, u64)>::new());
}

#[test]
fn should_rank() {
    let mut ranker = Ranker::new();

    let counts: [(&str, u64); 6] = [
        ("GET / HTTP/1.0", 12),
        ("GET /a HTTP/1.0", 10),
        ("GET /b HTTP/1.0", 120),
        ("GET /c HTTP/1.0", 1),
        ("GET /d HTTP/1.0", 5),
        ("GET /e HTTP/1.0", 6),
    ];
    // establish the first-seen order, then the remaining counts
    for (request, _) in counts {
        ranker.ingest(&log_with_request(request));
    }
    for (request, n) in counts {
        for _ in 1..n {
            ranker.ingest(&log_with_request(request));
        }
    }

    let sections_ranking = ranker.rank(ranker.sections_vec());

    assert_eq!(
        sections_ranking,
        vec![
            (String::from("/b"), 120),
            (String::from("/"), 12),
            (String::from("/a"), 10),
            (String::from("/e"), 6),
            (String::from("/d"), 5),
        ]
    );
}

#[test]
fn ranking_ties_keep_first_seen_order() {
    let requests = ["GET /a HTTP/1.0", "GET /b HTTP/1.0", "GET /c HTTP/1.0", "GET /c HTTP/1.0"];
    let mut first: Option<Vec<(String, u64)>> = None;
    for _ in 0..2 {
        let mut ranker = Ranker::new();
        for request in requests {
            ranker.ingest(&log_with_request(request));
        }
        let ranking = ranker.rank(ranker.sections_vec());
        assert_eq!(
            ranking,
            vec![
                (String::from("/c"), 2),
                (String::from("/a"), 1),
                (String::from("/b"), 1),
            ]
        );
        if let Some(previous) = &first {
            assert_eq!(*previous, ranking);
        }
        first = Some(ranking);
    }
}

#[test]
fn ranker_report_lists_sections_then_hosts() {
    let mut ranker = Ranker::new();
    let http_log = HttpLog {
        host: String::from("h1"),
        request: String::from("GET /pub/x HTTP/1.0"),
        ..Default::default()
    };
    ranker.ingest(&http_log);
    ranker.ingest(&http_log);
    assert_eq!(
        ranker.report(),
        "  Most requested sections:\n    /pub 2\n  Most active hosts:\n    h1 2\n"
    );
    // a pure read: asking again changes nothing
    assert_eq!(
        ranker.report(),
        "  Most requested sections:\n    /pub 2\n  Most active hosts:\n    h1 2\n"
    );
}
