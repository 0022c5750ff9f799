use email_pest_parser::{EmailParseError, EmailParser, ParsedEmail};

const BOTH_REQUIRED: &str = "Both 'From' and 'To' fields are required";

fn pair(name: &str, value: &str) -> (String, String) {
    (name.to_string(), value.to_string())
}

#[test]
fn accepts_the_basic_message_exactly() {
    let email = "From: sender@example.com\nTo: recipient@example.com\n\nThis is the body.";
    let parsed = ParsedEmail::from_email(email).unwrap();
    assert_eq!(
        parsed.email_addresses,
        vec!["sender@example.com".to_string(), "recipient@example.com".to_string()]
    );
    assert_eq!(parsed.body, "This is the body.");
    assert_eq!(
        parsed.headers,
        vec![pair("From", "sender@example.com"), pair("To", "recipient@example.com")]
    );
}

#[test]
fn keeps_every_header_line_in_order() {
    let email = "Subject: Hi there\nFrom: a@example.com\nX-Id: 42\nTo: b@mail.example.org\n\nBody";
    let parsed = ParsedEmail::from_email(email).unwrap();
    assert_eq!(
        parsed.headers,
        vec![
            pair("Subject", "Hi there"),
            pair("From", "a@example.com"),
            pair("X-Id", "42"),
            pair("To", "b@mail.example.org"),
        ]
    );
    assert_eq!(parsed.email_addresses.len(), 2);
}

#[test]
fn body_is_the_rest_after_the_first_blank_line_verbatim() {
    let email = "From: a@example.com\nTo: b@example.com\n\n  first line \n\nsecond part\n";
    let parsed = ParsedEmail::from_email(email).unwrap();
    assert_eq!(parsed.body, "  first line \n\nsecond part\n");
}

#[test]
fn body_may_be_empty() {
    let parsed = ParsedEmail::from_email("From: a@example.com\nTo: b@example.com\n\n").unwrap();
    assert_eq!(parsed.body, "");
}

#[test]
fn accepts_crlf_line_ends() {
    let email = "From: a@example.com\r\nTo: b@example.com\r\n\r\nBody\r\n";
    let parsed = ParsedEmail::from_email(email).unwrap();
    assert_eq!(parsed.headers[1], pair("To", "b@example.com"));
    assert_eq!(parsed.body, "Body\r\n");
}

#[test]
fn value_keeps_trailing_spaces_and_drops_leading_ones() {
    let email = "From: a@example.com\nTo: b@example.com\nNote:\t  padded  \n\nx";
    let parsed = ParsedEmail::from_email(email).unwrap();
    assert_eq!(parsed.headers[2], pair("Note", "padded  "));
}

#[test]
fn reparsing_gives_the_same_result() {
    let email = "From: a@example.com\nTo: b@example.com\nSubject: S\n\nBody";
    let first = ParsedEmail::from_email(email).unwrap();
    let second = ParsedEmail::from_email(email).unwrap();
    assert_eq!(first.headers, second.headers);
    assert_eq!(first.body, second.body);
    assert_eq!(first.email_addresses, second.email_addresses);
}

#[test]
fn only_from_is_a_missing_field() {
    let parsed = ParsedEmail::from_email("From: sender@example.com\n\nBody content.");
    match parsed {
        Err(EmailParseError::MissingField(m)) => assert_eq!(m, BOTH_REQUIRED),
        other => panic!("unexpected {:?}", other),
    }
}

#[test]
fn no_headers_is_a_missing_field() {
    match ParsedEmail::from_email("\nJust a body") {
        Err(EmailParseError::MissingField(m)) => assert_eq!(m, BOTH_REQUIRED),
        other => panic!("unexpected {:?}", other),
    }
}

#[test]
fn two_from_headers_pass_the_count() {
    let email = "From: a@example.com\nFrom: b@example.com\n\nBody";
    let parsed = ParsedEmail::from_email(email).unwrap();
    assert_eq!(
        parsed.email_addresses,
        vec!["a@example.com".to_string(), "b@example.com".to_string()]
    );
}

#[test]
fn missing_at_names_the_value() {
    match ParsedEmail::from_email("To: recipientexample.com\n\nBody content.") {
        Err(EmailParseError::InvalidEmailAddress(v)) => assert_eq!(v, "recipientexample.com"),
        other => panic!("unexpected {:?}", other),
    }
}

#[test]
fn address_error_comes_before_the_count() {
    let email = "From: a@example.com\nTo: b@com\n\nBody";
    match ParsedEmail::from_email(email) {
        Err(EmailParseError::InvalidEmailAddress(v)) => assert_eq!(v, "b@com"),
        other => panic!("unexpected {:?}", other),
    }
}

#[test]
fn empty_value_is_a_syntax_error() {
    let email = "From: a@example.com\nTo: b@example.com\nSubject: \n\nBody";
    assert!(matches!(
        ParsedEmail::from_email(email),
        Err(EmailParseError::ParseError(_))
    ));
}

#[test]
fn missing_blank_line_is_a_syntax_error() {
    let email = "From: a@example.com\nTo: b@example.com\nBody";
    assert!(matches!(
        ParsedEmail::from_email(email),
        Err(EmailParseError::ParseError(_))
    ));
    assert!(matches!(ParsedEmail::from_email(""), Err(EmailParseError::ParseError(_))));
}

#[test]
fn missing_colon_is_a_syntax_error() {
    let email = "From a@example.com\nTo: b@example.com\n\nBody";
    assert!(matches!(
        ParsedEmail::from_email(email),
        Err(EmailParseError::ParseError(_))
    ));
}

#[test]
fn address_grammar_accepts_and_rejects() {
    assert!(EmailParser::parse_address("user.name-123@example.com").is_ok());
    assert!(EmailParser::parse_address("username@mail.example.com").is_ok());
    assert!(EmailParser::parse_address("username@com").is_err());
    assert!(EmailParser::parse_address("user!name@example.com").is_err());
}

#[test]
fn address_grammar_edges() {
    assert!(EmailParser::parse_address("@example.com").is_err());
    assert!(EmailParser::parse_address("a@example..com").is_err());
    assert!(EmailParser::parse_address("a@.example.com").is_err());
    assert!(EmailParser::parse_address("a@example.com.").is_err());
    assert!(EmailParser::parse_address("a@b@example.com").is_err());
    assert!(EmailParser::parse_address("a@x-y.z").is_ok());
    assert!(EmailParser::parse_address("").is_err());
}

#[test]
fn message_grammar_gives_spans() {
    let tree = EmailParser::parse_message("Ab: cd\n\nxyz").unwrap();
    assert_eq!(tree.headers.len(), 1);
    let h = tree.headers[0];
    assert_eq!((h.name_start, h.name_end, h.value_start, h.value_end, h.next), (0, 2, 4, 6, 7));
    assert_eq!(tree.body_start, 8);
    assert!(EmailParser::parse_message("Ab cd\n\nxyz").is_err());
}

#[test]
fn spans_count_characters_not_bytes() {
    let email = "Subject: caf\u{e9} \u{2713}\nFrom: a@example.com\nTo: b@example.com\n\n\u{e9}t\u{e9}";
    let parsed = ParsedEmail::from_email(email).unwrap();
    assert_eq!(parsed.headers[0], pair("Subject", "caf\u{e9} \u{2713}"));
    assert_eq!(parsed.body, "\u{e9}t\u{e9}");
}

#[test]
fn syntax_error_names_where_matching_stopped() {
    match ParsedEmail::from_email("From: a@example.com\nBody") {
        Err(EmailParseError::ParseError(d)) => assert_eq!(
            d,
            "expected a header line or the blank line that ends the headers at character 20"
        ),
        other => panic!("unexpected {:?}", other),
    }
    let mut long = String::new();
    for _ in 0..12 {
        long.push_str("Header-Name: some value\n");
    }
    long.push_str("no colon here\n\nBody");
    match EmailParser::parse_message(&long) {
        Err(d) => assert_eq!(
            d,
            "expected a header line or the blank line that ends the headers at character 288"
        ),
        Ok(t) => panic!("unexpected {:?}", t),
    }
    match EmailParser::parse_message("") {
        Err(d) => assert!(d.ends_with(" at character 0")),
        Ok(t) => panic!("unexpected {:?}", t),
    }
}
