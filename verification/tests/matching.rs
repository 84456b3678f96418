//! Matching ranked candidates against declared variants.

use axum_accept::errors::AcceptRejection;
use axum_accept::matcher::{DeclaredVariant, VariantSet, VariantSetError};

fn variant(main: &str, sub: &str, suffix: Option<&str>, is_default: bool) -> DeclaredVariant {
    DeclaredVariant {
        main_type: main.as_bytes().to_vec(),
        sub_type: sub.as_bytes().to_vec(),
        suffix: suffix.map(|s| s.as_bytes().to_vec()),
        is_default,
    }
}

fn accept_set() -> VariantSet {
    VariantSet::new(vec![
        variant("text", "plain", None, false),
        variant("application", "json", None, false),
        variant("application", "ld", Some("json"), false),
    ])
    .expect("a concrete variant list is accepted")
}

fn accept_with_default() -> VariantSet {
    VariantSet::new(vec![
        variant("application", "json", None, false),
        variant("text", "plain", None, true),
    ])
    .expect("a single default is accepted")
}

#[test]
fn test_accept_extractor_basic() {
    let set = accept_set();
    let selected = set
        .negotiate(b"application/json,text/plain")
        .expect("Expected no rejection");
    assert_eq!(1, selected, "expected application/json");
}

#[test]
fn test_accept_extractor_q() {
    let set = accept_set();
    let selected = set
        .negotiate(b"application/json;q=0.9,text/plain")
        .expect("Expected no rejection");
    assert_eq!(0, selected, "expected text/plain");
}

#[test]
fn test_accept_extractor_specifity() {
    let set = accept_set();
    let selected = set
        .negotiate(b"text/*,text/plain")
        .expect("Expected no rejection");
    assert_eq!(0, selected, "expected text/plain");
}

#[test]
fn test_accept_extractor_suffix() {
    let set = accept_set();
    let selected = set
        .negotiate(b"text/*,application/ld+json,text/plain")
        .expect("Expected no rejection");
    assert_eq!(2, selected, "expected application/ld+json");
}

#[test]
fn test_accept_extractor_no_match() {
    let set = accept_set();
    let selected = set.negotiate(b"text/csv");
    assert!(
        matches!(selected, Err(AcceptRejection::NoSupportedMediaTypeFound)),
        "expected no supported media type found"
    );
}

#[test]
fn test_accept_extractor_star() {
    let set = accept_set();
    let selected = set.negotiate(b"text/csv,text/*");
    assert!(
        matches!(selected, Ok(0)),
        "expected text/* to pick text/plain, got {:?}",
        selected
    );
}

#[test]
fn test_accept_extractor_star_star() {
    let set = accept_set();
    let selected = set.negotiate(b"text/csv,*/*");
    assert!(matches!(selected, Ok(0)), "expected text/plain");
}

#[test]
fn test_accept_extractor_default() {
    let set = accept_with_default();
    let selected = set.negotiate(b"text/csv");
    assert!(
        matches!(selected, Err(AcceptRejection::NoSupportedMediaTypeFound)),
        "expected no supported media type found"
    );

    let selected = set.negotiate(b"");
    assert!(matches!(selected, Ok(1)), "expected text/plain (default)");
}

#[test]
fn test_accept_extractor_star_star_default() {
    let set = accept_with_default();
    let selected = set.negotiate(b"text/csv,*/*");
    assert!(matches!(selected, Ok(1)), "expected text/plain (default)");
}

#[test]
fn test_no_supported_media_type_found() {
    let set = VariantSet::new(vec![variant("text", "plain", None, false)])
        .expect("one variant is accepted");
    match set.negotiate(b"text/html,application/json") {
        Err(AcceptRejection::NoSupportedMediaTypeFound) => {}
        _ => panic!("Expected no supported media type found rejection"),
    }
}

#[test]
fn test_accept() {
    let set = VariantSet::new(vec![variant("text", "plain", None, false)])
        .expect("one variant is accepted");
    let selected = set
        .negotiate(b"appliction/json,text/plain")
        .expect("Expected no rejection");
    assert_eq!(0, selected);
}

#[test]
fn test_accept2() {
    let header: &[u8] = b"appliction/json,text/plain";
    let plain = || variant("text", "plain", None, false);
    let html = || variant("text", "html", None, false);

    let set = VariantSet::new(vec![plain(), html()]).expect("Expected a valid variant set");
    let selected = set.negotiate(header).expect("Expected no rejection");
    assert_eq!(0, selected, "expected text/plain to match");

    let set = VariantSet::new(vec![html(), plain()]).expect("Expected a valid variant set");
    let selected = set.negotiate(header).expect("Expected no rejection");
    assert_eq!(1, selected, "expected text/plain to match");
}

#[test]
fn test_accept3() {
    let header: &[u8] = b"appliction/json,text/plain";
    let plain = || variant("text", "plain", None, false);
    let html = || variant("text", "html", None, false);
    let xml = || variant("text", "xml", None, false);

    let set = VariantSet::new(vec![plain(), html(), xml()]).expect("Expected a valid variant set");
    assert_eq!(0, set.negotiate(header).expect("Expected no rejection"));

    let set = VariantSet::new(vec![html(), plain(), xml()]).expect("Expected a valid variant set");
    assert_eq!(1, set.negotiate(header).expect("Expected no rejection"));

    let set = VariantSet::new(vec![html(), xml(), plain()]).expect("Expected a valid variant set");
    assert_eq!(2, set.negotiate(header).expect("Expected no rejection"));
}

#[test]
fn test_accept4() {
    let header: &[u8] = b"appliction/json,text/plain";
    let plain = || variant("text", "plain", None, false);
    let html = || variant("text", "html", None, false);
    let xml = || variant("text", "xml", None, false);
    let calendar = || variant("text", "calendar", None, false);

    let set = VariantSet::new(vec![plain(), html(), xml(), calendar()])
        .expect("Expected a valid variant set");
    assert_eq!(0, set.negotiate(header).expect("Expected no rejection"));

    let set = VariantSet::new(vec![html(), plain(), xml(), calendar()])
        .expect("Expected a valid variant set");
    assert_eq!(1, set.negotiate(header).expect("Expected no rejection"));

    let set = VariantSet::new(vec![html(), xml(), plain(), calendar()])
        .expect("Expected a valid variant set");
    assert_eq!(2, set.negotiate(header).expect("Expected no rejection"));

    let set = VariantSet::new(vec![html(), xml(), calendar(), plain()])
        .expect("Expected a valid variant set");
    assert_eq!(3, set.negotiate(header).expect("Expected no rejection"));
}

#[test]
fn test_accept5() {
    let header: &[u8] = b"appliction/json,text/plain";
    let plain = || variant("text", "plain", None, false);
    let html = || variant("text", "html", None, false);
    let xml = || variant("text", "xml", None, false);
    let calendar = || variant("text", "calendar", None, false);
    let gif = || variant("image", "gif", None, false);

    let set = VariantSet::new(vec![plain(), html(), xml(), calendar(), gif()])
        .expect("Expected a valid variant set");
    assert_eq!(0, set.negotiate(header).expect("Expected no rejection"));

    let set = VariantSet::new(vec![html(), plain(), xml(), calendar(), gif()])
        .expect("Expected a valid variant set");
    assert_eq!(1, set.negotiate(header).expect("Expected no rejection"));

    let set = VariantSet::new(vec![html(), xml(), plain(), calendar(), gif()])
        .expect("Expected a valid variant set");
    assert_eq!(2, set.negotiate(header).expect("Expected no rejection"));

    let set = VariantSet::new(vec![html(), xml(), calendar(), plain(), gif()])
        .expect("Expected a valid variant set");
    assert_eq!(3, set.negotiate(header).expect("Expected no rejection"));

    let set = VariantSet::new(vec![html(), xml(), calendar(), gif(), plain()])
        .expect("Expected a valid variant set");
    assert_eq!(4, set.negotiate(header).expect("Expected no rejection"));
}

#[test]
fn test_accept6() {
    let header: &[u8] = b"appliction/json,text/plain";
    let plain = || variant("text", "plain", None, false);
    let html = || variant("text", "html", None, false);
    let xml = || variant("text", "xml", None, false);
    let calendar = || variant("text", "calendar", None, false);
    let gif = || variant("image", "gif", None, false);
    let epub = || variant("application", "epub", None, false);

    let set = VariantSet::new(vec![plain(), html(), xml(), calendar(), gif(), epub()])
        .expect("Expected a valid variant set");
    assert_eq!(0, set.negotiate(header).expect("Expected no rejection"));

    let set = VariantSet::new(vec![html(), plain(), xml(), calendar(), gif(), epub()])
        .expect("Expected a valid variant set");
    assert_eq!(1, set.negotiate(header).expect("Expected no rejection"));

    let set = VariantSet::new(vec![html(), xml(), plain(), calendar(), gif(), epub()])
        .expect("Expected a valid variant set");
    assert_eq!(2, set.negotiate(header).expect("Expected no rejection"));

    let set = VariantSet::new(vec![html(), xml(), calendar(), plain(), gif(), epub()])
        .expect("Expected a valid variant set");
    assert_eq!(3, set.negotiate(header).expect("Expected no rejection"));

    let set = VariantSet::new(vec![html(), xml(), calendar(), gif(), plain(), epub()])
        .expect("Expected a valid variant set");
    assert_eq!(4, set.negotiate(header).expect("Expected no rejection"));

    let set = VariantSet::new(vec![html(), xml(), calendar(), gif(), epub(), plain()])
        .expect("Expected a valid variant set");
    assert_eq!(5, set.negotiate(header).expect("Expected no rejection"));
}

#[test]
fn round_trip_matching() {
    let set = VariantSet::new(vec![
        variant("text", "plain", None, false),
        variant("application", "json", None, false),
    ])
    .expect("Expected a valid variant set");
    let selected = set
        .negotiate(b"application/json,text/plain")
        .expect("Expected no rejection");
    assert_eq!(1, selected, "expected application/json");
}

#[test]
fn subtype_wildcard_takes_last_declared_of_main_type() {
    let set = VariantSet::new(vec![
        variant("text", "plain", None, false),
        variant("application", "json", None, false),
        variant("text", "html", None, false),
    ])
    .expect("Expected a valid variant set");
    let selected = set.negotiate(b"text/*").expect("Expected no rejection");
    assert_eq!(2, selected, "later declarations shadow earlier ones here");
}

#[test]
fn matching_is_case_insensitive() {
    let set = accept_set();
    let selected = set
        .negotiate(b"Application/JSON")
        .expect("Expected no rejection");
    assert_eq!(1, selected);
}

#[test]
fn empty_variant_list_is_a_configuration_error() {
    let r = VariantSet::new(vec![]);
    assert!(matches!(r, Err(VariantSetError::NoVariants)));
}

#[test]
fn wildcard_variant_is_a_configuration_error() {
    let r = VariantSet::new(vec![
        variant("text", "plain", None, false),
        variant("text", "*", None, false),
    ]);
    assert!(matches!(r, Err(VariantSetError::WildcardVariant(1))));
}

#[test]
fn second_default_is_a_configuration_error() {
    let r = VariantSet::new(vec![
        variant("text", "plain", None, true),
        variant("application", "json", None, false),
        variant("text", "html", None, true),
    ]);
    assert!(matches!(r, Err(VariantSetError::MultipleDefaults(2))));
}

#[test]
fn rejection_status_and_message() {
    let (status, message) = AcceptRejection::InvalidHeader.status_and_message();
    assert_eq!(400, status);
    assert_eq!("Invalid accept header", message);

    let (status, message) = AcceptRejection::InvalidMediaType(12).status_and_message();
    assert_eq!(400, status);
    assert_eq!("Invalid media type in accept header at index 12", message);

    let (status, message) = AcceptRejection::InvalidQ(0).status_and_message();
    assert_eq!(400, status);
    assert_eq!("Invalid q parameter in accept header at index 0", message);

    let (status, message) = AcceptRejection::NoSupportedMediaTypeFound.status_and_message();
    assert_eq!(406, status);
    assert_eq!(
        "Accept header does not contain supported media types",
        message
    );
}
