use configy_api::accept::parse_accept;
use configy_api::negotiate::{negotiate, MediaType, Negotiated};

fn negotiated_essence(accept: Option<&str>, available: Vec<MediaType>) -> (String, Option<MediaType>) {
    let ranges = parse_accept(accept.unwrap_or(""));
    match negotiate(&ranges, &available) {
        Negotiated::Matched(t) => (t.essence(), Some(t)),
        Negotiated::Fallback => ("application/json".to_string(), None),
    }
}

#[test]
fn content_negotiation_should_work() {
    let accept = "application/json, text/html;q=0.9, text/plain;q=0.8, */*;q=0.7";

    let available = vec![MediaType::new("text", "html"), MediaType::new("application", "json")];
    let (essence, _) = negotiated_essence(Some(accept), available);
    assert_eq!(essence, "application/json");

    let available = vec![MediaType::new("application", "xml")];
    let (essence, _) = negotiated_essence(Some(accept), available);
    assert_eq!(essence, "application/xml");
}

#[test]
fn mime_parameters_should_be_parsed() {
    let accept = "application/json;q=0.6, text/csv;header=absent;q=0.9, text/plain;q=0.8, */*;q=0.7";

    let available = vec![MediaType::new("text", "html"), MediaType::new("text", "csv")];
    let (essence, negotiated) = negotiated_essence(Some(accept), available);
    assert_eq!(essence, "text/csv");

    let header_parameter = negotiated.unwrap().get_param("header").unwrap();
    assert_eq!(header_parameter, "absent");
}

#[test]
fn ignore_invalid_mimetypes() {
    let accept = "oneinvalid, text/html;q=0.9, twoinvalid, text/plain;q=0.8, */*;q=0.7";

    let available = vec![MediaType::new("text", "html"), MediaType::new("application", "json")];
    let (essence, _) = negotiated_essence(Some(accept), available);
    assert_eq!(essence, "text/html");
}

#[test]
fn no_accept_header_should_return_default() {
    let available = vec![MediaType::new("text", "html"), MediaType::new("application", "json")];
    let (essence, _) = negotiated_essence(None, available);
    assert_eq!(essence, "application/json");
}

#[test]
fn exact_range_needs_an_exact_or_wildcard_partner() {
    let available = vec![MediaType::new("application", "xml")];
    let (essence, _) = negotiated_essence(Some("application/xml"), available);
    assert_eq!(essence, "application/xml");

    let available = vec![MediaType::new("text", "html")];
    let (essence, negotiated) = negotiated_essence(Some("application/xml"), available);
    assert_eq!(essence, "application/json");
    assert!(negotiated.is_none());
}

#[test]
fn exact_match_keeps_client_parameters() {
    let ranges = parse_accept("text/csv;header=absent");
    let available = vec![MediaType::new("text", "csv")];
    match negotiate(&ranges, &available) {
        Negotiated::Matched(t) => {
            assert_eq!(t.essence(), "text/csv");
            assert_eq!(t.get_param("header").unwrap(), "absent");
        },
        Negotiated::Fallback => panic!("a matching range must not fall back"),
    }
}

#[test]
fn quality_is_clamped_and_ties_keep_header_order() {
    // A quality above one counts as one, so both entries tie and the
    // earlier one wins.
    let ranges = parse_accept("text/plain;q=2.5, text/html");
    let available = vec![MediaType::new("text", "html"), MediaType::new("text", "plain")];
    match negotiate(&ranges, &available) {
        Negotiated::Matched(t) => assert_eq!(t.essence(), "text/plain"),
        Negotiated::Fallback => panic!("a matching range must not fall back"),
    }
}

#[test]
fn unparseable_quality_counts_as_one() {
    let ranges = parse_accept("text/plain;q=abc, text/html;q=0.9");
    let available = vec![MediaType::new("text", "html"), MediaType::new("text", "plain")];
    match negotiate(&ranges, &available) {
        Negotiated::Matched(t) => assert_eq!(t.essence(), "text/plain"),
        Negotiated::Fallback => panic!("a matching range must not fall back"),
    }
}

#[test]
fn whitespace_around_entries_is_trimmed() {
    let ranges = parse_accept("  text/html ; q=0.9 ,  application/json  ");
    assert_eq!(ranges.len(), 2);
    let available = vec![MediaType::new("text", "html"), MediaType::new("application", "json")];
    match negotiate(&ranges, &available) {
        Negotiated::Matched(t) => assert_eq!(t.essence(), "application/json"),
        Negotiated::Fallback => panic!("a matching range must not fall back"),
    }
}

#[test]
fn full_wildcard_takes_the_servers_first_choice() {
    let ranges = parse_accept("*/*");
    let available = vec![MediaType::new("application", "json"), MediaType::new("text", "csv")];
    match negotiate(&ranges, &available) {
        Negotiated::Matched(t) => assert_eq!(t.essence(), "application/json"),
        Negotiated::Fallback => panic!("a matching range must not fall back"),
    }
}

#[test]
fn type_wildcard_matches_within_type() {
    let ranges = parse_accept("text/*");
    let available = vec![MediaType::new("application", "json"), MediaType::new("text", "csv")];
    match negotiate(&ranges, &available) {
        Negotiated::Matched(t) => assert_eq!(t.essence(), "text/csv"),
        Negotiated::Fallback => panic!("a matching range must not fall back"),
    }
}

#[test]
fn subtype_wildcard_matches_within_subtype() {
    let ranges = parse_accept("*/json");
    let available = vec![MediaType::new("text", "html"), MediaType::new("application", "json")];
    match negotiate(&ranges, &available) {
        Negotiated::Matched(t) => assert_eq!(t.essence(), "application/json"),
        Negotiated::Fallback => panic!("a matching range must not fall back"),
    }
}
