use logmonitoring::parser::Parser;

#[test]
fn should_parse_a_valid_log_line() {
    let parser = Parser::new();
    let result = parser.parse("204.249.225.59 - - [05/Jun/2018:20:55:43 +0000] \"GET /pub/rmharris/catalogs/dawsocat/intro.html HTTP/1.0\" 200 3542");

    assert_eq!(result.is_some(), true);

    let http_log = result.unwrap();

    assert_eq!(http_log.host, "204.249.225.59");
    assert_eq!(http_log.identity, "-");
    assert_eq!(http_log.user, "-");
    assert_eq!(http_log.time, "05/Jun/2018:20:55:43 +0000");
    assert_eq!(
        http_log.request,
        "GET /pub/rmharris/catalogs/dawsocat/intro.html HTTP/1.0"
    );
    assert_eq!(http_log.status, "200");
    assert_eq!(http_log.size, "3542");
}

#[test]
fn should_not_parse_an_invalid_log_line() {
    let parser = Parser::new();
    // Missing the user
    let result = parser.parse("204.249.225.59 - [05/Jun/2018:20:55:43 +0000] \"GET /pub/rmharris/catalogs/dawsocat/intro.html HTTP/1.0\" 200 3542");

    assert_eq!(result.is_none(), true);
}

#[test]
fn parse_then_serialize_round_trips() {
    let parser = Parser::new();
    let line = "204.249.225.59 - - [05/Jun/2018:20:55:43 +0000] \"GET /pub/rmharris/catalogs/dawsocat/intro.html HTTP/1.0\" 200 3542";
    let http_log = parser.parse(line).unwrap();
    assert_eq!(http_log.serialize(), line);
}

#[test]
fn parse_rejects_trailing_garbage_and_empty_fields() {
    let parser = Parser::new();
    assert!(parser.parse("").is_none());
    assert!(parser.parse("host - -").is_none());
    // empty status
    assert!(parser.parse("h - - [t] \"r\"  s").is_none());
    // non-numeric status
    assert!(parser.parse("h - - [t] \"r\" 2x0 s").is_none());
    // space inside the size token ends the line early
    assert!(parser.parse("h - - [t] \"r\" 200 12 34").is_none());
}

#[test]
fn parse_keeps_spaces_inside_the_request() {
    let parser = Parser::new();
    let log = parser
        .parse("h - - [01/Jan/2000:00:00:00 +0000] \"GET /a b c HTTP/1.0\" 200 1")
        .unwrap();
    assert_eq!(log.request, "GET /a b c HTTP/1.0");
}
