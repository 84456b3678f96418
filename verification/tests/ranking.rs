//! Ranking an `Accept` header: parsing, quality weights, order.

use axum_accept::candidate::MediaTypeCandidate;
use axum_accept::errors::AcceptRejection;
use axum_accept::header::parse_mediatypes;

fn summary(c: &MediaTypeCandidate) -> (String, String, Option<String>) {
    (
        String::from_utf8(c.main_type.clone()).unwrap(),
        String::from_utf8(c.sub_type.clone()).unwrap(),
        c.suffix
            .clone()
            .map(|s| String::from_utf8(s).unwrap()),
    )
}

fn essences(list: &[MediaTypeCandidate]) -> Vec<(String, String, Option<String>)> {
    list.iter().map(summary).collect()
}

fn pair(main: &str, sub: &str) -> (String, String, Option<String>) {
    (main.to_string(), sub.to_string(), None)
}

#[test]
fn test_parse_mediatype_invisible_ascii() {
    // invisible ascii is verboten
    match parse_mediatypes(b"\xE2\x80\x8E ") {
        Err(AcceptRejection::InvalidHeader) => {}
        _ => panic!("expected invalid header rejection"),
    }
}

#[test]
fn test_parse_mediatype_invalid_media_type() {
    match parse_mediatypes(b"lol") {
        Err(AcceptRejection::InvalidMediaType(i)) => assert_eq!(i, 0),
        _ => panic!("expected invalid media type rejection"),
    }
}

#[test]
fn test_parse_mediatype_invalid_q() {
    match parse_mediatypes(b"text/plain,application/json;q=lol") {
        Err(AcceptRejection::InvalidQ(i)) => assert_eq!(i, 1),
        _ => panic!("expected invalid q rejection"),
    }
}

#[test]
fn test_parse_mediatype_valid_types() {
    let list = parse_mediatypes(b"text/plain").expect("Accept header should've parsed correctly");
    assert_eq!(vec![pair("text", "plain")], essences(&list));

    let list = parse_mediatypes(b"text/plain,application/json")
        .expect("Accept header should've parsed correctly");
    assert_eq!(
        vec![pair("text", "plain"), pair("application", "json")],
        essences(&list)
    );

    let list = parse_mediatypes(b"text/plain,application/json;q=0.9")
        .expect("Accept header should've parsed correctly");
    assert_eq!(2, list.len());
    assert_eq!(pair("text", "plain"), summary(&list[0]));
    assert_eq!(pair("application", "json"), summary(&list[1]));
}

#[test]
fn test_parse_mediatype_order() {
    let list = parse_mediatypes(b"text/plain;q=0.9,application/json")
        .expect("Accept header should've parsed correctly");
    assert_eq!(2, list.len());
    assert_eq!(pair("application", "json"), summary(&list[0]));
    assert_eq!(pair("text", "plain"), summary(&list[1]));

    let list = parse_mediatypes(b"text/*,text/plain,application/json")
        .expect("Accept header should've parsed correctly");
    assert_eq!(
        vec![
            pair("text", "plain"),
            pair("application", "json"),
            pair("text", "*")
        ],
        essences(&list)
    );

    let list = parse_mediatypes(b"*/*,text/*,text/plain,application/json")
        .expect("Accept header should've parsed correctly");
    assert_eq!(
        vec![
            pair("text", "plain"),
            pair("application", "json"),
            pair("text", "*"),
            pair("*", "*")
        ],
        essences(&list)
    );
}

#[test]
fn test_get_media_type_list_invisible_ascii() {
    match parse_mediatypes(b"\xE2\x80\x8E ") {
        Err(AcceptRejection::InvalidHeader) => {}
        _ => panic!("expected invalid header rejection"),
    }
}

#[test]
fn test_get_media_type_list_invalid_media_type() {
    match parse_mediatypes(b"lol") {
        Err(AcceptRejection::InvalidMediaType(i)) => assert_eq!(i, 0),
        _ => panic!("expected invalid media type rejection"),
    }
}

#[test]
fn test_get_media_type_list_invalid_q() {
    match parse_mediatypes(b"text/plain,application/json;q=lol") {
        Err(AcceptRejection::InvalidQ(i)) => assert_eq!(i, 1),
        _ => panic!("expected invalid q rejection"),
    }
}

#[test]
fn test_get_media_type_list_valid_types() {
    let list = parse_mediatypes(b"text/plain").expect("Accept header should've parsed correctly");
    assert_eq!(vec![pair("text", "plain")], essences(&list));

    let list = parse_mediatypes(b"text/plain,application/json")
        .expect("Accept header should've parsed correctly");
    assert_eq!(
        vec![pair("text", "plain"), pair("application", "json")],
        essences(&list)
    );

    let list = parse_mediatypes(b"text/plain,application/json;q=0.9")
        .expect("Accept header should've parsed correctly");
    assert_eq!(2, list.len());
    assert_eq!(pair("text", "plain"), summary(&list[0]));
    assert_eq!(pair("application", "json"), summary(&list[1]));
}

#[test]
fn test_get_media_type_list_order() {
    let list = parse_mediatypes(b"text/plain;q=0.9,application/json")
        .expect("Accept header should've parsed correctly");
    assert_eq!(2, list.len());
    assert_eq!(pair("application", "json"), summary(&list[0]));
    assert_eq!(pair("text", "plain"), summary(&list[1]));

    let list = parse_mediatypes(b"text/*,text/plain,application/json")
        .expect("Accept header should've parsed correctly");
    assert_eq!(
        vec![
            pair("text", "plain"),
            pair("application", "json"),
            pair("text", "*")
        ],
        essences(&list)
    );

    let list = parse_mediatypes(b"*/*,text/*,text/plain,application/json")
        .expect("Accept header should've parsed correctly");
    assert_eq!(
        vec![
            pair("text", "plain"),
            pair("application", "json"),
            pair("text", "*"),
            pair("*", "*")
        ],
        essences(&list)
    );
}

#[test]
fn single_entry_has_full_quality() {
    let list = parse_mediatypes(b"application/xml").expect("one concrete entry should parse");
    assert_eq!(1, list.len());
    assert_eq!(pair("application", "xml"), summary(&list[0]));
    assert_eq!(1000, list[0].quality);
    assert_eq!(0, list[0].index);
}

#[test]
fn suffix_is_kept_separate() {
    let list = parse_mediatypes(b"application/ld+json").expect("suffixed entry should parse");
    assert_eq!(1, list.len());
    assert_eq!(
        (
            "application".to_string(),
            "ld".to_string(),
            Some("json".to_string())
        ),
        summary(&list[0])
    );
}

#[test]
fn quality_is_scaled_and_truncated() {
    let list = parse_mediatypes(b"a/b;q=0.9,c/d;q=0.7,e/f;q=0.9995,g/h;q=0.005")
        .expect("entries should parse");
    assert_eq!(4, list.len());
    assert_eq!(999, list[0].quality);
    assert_eq!(900, list[1].quality);
    assert_eq!(700, list[2].quality);
    assert_eq!(5, list[3].quality);
    assert_eq!(pair("e", "f"), summary(&list[0]));
    assert_eq!(pair("a", "b"), summary(&list[1]));
    assert_eq!(pair("c", "d"), summary(&list[2]));
    assert_eq!(pair("g", "h"), summary(&list[3]));
}

#[test]
fn quality_out_of_range_is_clamped() {
    let list = parse_mediatypes(b"a/b;q=2.5,c/d;q=-1,e/f;q=1.0").expect("entries should parse");
    assert_eq!(3, list.len());
    assert_eq!(1000, list[0].quality);
    assert_eq!(1000, list[1].quality);
    assert_eq!(0, list[2].quality);
    assert_eq!(pair("c", "d"), summary(&list[2]));
}

#[test]
fn quality_keyword_values() {
    let list = parse_mediatypes(b"a/b;q=inf,c/d;q=nan,e/f;q=Infinity").expect("should parse");
    assert_eq!(3, list.len());
    assert_eq!(1000, list[0].quality);
    assert_eq!(1000, list[1].quality);
    assert_eq!(0, list[2].quality);
    assert_eq!(pair("c", "d"), summary(&list[2]));
}

#[test]
fn quality_exponent_notation() {
    let list = parse_mediatypes(b"a/b;q=9e-1,c/d;q=5E-4,e/f;q=.25,g/h;q=1.").expect("should parse");
    assert_eq!(4, list.len());
    assert_eq!(pair("g", "h"), summary(&list[0]));
    assert_eq!(1000, list[0].quality);
    assert_eq!(900, list[1].quality);
    assert_eq!(250, list[2].quality);
    assert_eq!(0, list[3].quality);
}

#[test]
fn empty_header_ranks_empty() {
    let list = parse_mediatypes(b"").expect("an empty header is an empty ranking");
    assert_eq!(0, list.len());
}

#[test]
fn ranking_is_pure() {
    let header = b"*/*;q=0.1,text/*,text/plain;q=0.5,application/json";
    let a = parse_mediatypes(header).expect("should parse");
    let b = parse_mediatypes(header).expect("should parse");
    assert_eq!(a.len(), b.len());
    for (x, y) in a.iter().zip(b.iter()) {
        assert_eq!(summary(x), summary(y));
        assert_eq!(x.quality, y.quality);
        assert_eq!(x.index, y.index);
    }
}
