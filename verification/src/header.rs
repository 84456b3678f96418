//! Parsing of a whole `Accept` header value into ranked candidates.
//!
//! Lexical tokenization of the header into media-type entries is delegated
//! to the `mediatype` crate; everything around it — header-value validity,
//! `q` parsing, ranking — is verified here.

use vstd::prelude::*;
use mediatype::ReadParams;
use crate::bytes::{all_visible_ascii, check_visible_ascii};
use crate::candidate::{CandidateView, MediaTypeCandidate, RawEntry, RawEntryView};
use crate::errors::AcceptRejection;
use crate::rank::{rank_entries, rank_entries_spec, rank_result_matches};

verus! {

/// What the media-type tokenizer returns for a header value: the parsed
/// entries, or the position of the first entry that does not parse.
pub uninterp spec fn header_entries(s: Seq<u8>) -> Result<Seq<RawEntryView>, int>;

/// Relies on `mediatype::MediaTypeList`, which splits a header value at
/// commas outside quoted strings, and `mediatype::MediaType::parse`, which
/// reads one entry as `type/subtype[+suffix][;params]`. `Err(i)` names the
/// first entry that does not parse. The `q` field carries the raw string of
/// the entry's last `q` parameter, as `mediatype::ReadParams::get_param`
/// hands it out.
#[verifier::external_body]
fn tokenize_header(header: &[u8]) -> (r: Result<Vec<RawEntry>, usize>)
    requires
        all_visible_ascii(header@),
    ensures
        (match (r, header_entries(header@)) {
            (Result::Ok(v), Result::Ok(t)) => v.deep_view() == t,
            (Result::Err(i), Result::Err(j)) => i as int == j,
            _ => false,
        }),
{
    let text = core::str::from_utf8(header).unwrap_or("");
    let q_name = mediatype::Name::new_unchecked("q");
    mediatype::MediaTypeList::new(text).enumerate().map(
        |(i, item)| match item {
            Ok(mt) => Ok(
                RawEntry {
                    main_type: mt.ty.as_str().as_bytes().to_vec(),
                    sub_type: mt.subty.as_str().as_bytes().to_vec(),
                    suffix: mt.suffix.map(|n| n.as_str().as_bytes().to_vec()),
                    q: mt.get_param(q_name).map(|v| v.as_str().as_bytes().to_vec()),
                },
            ),
            Err(_) => Err(i),
        },
    ).collect()
}

/// What parsing an `Accept` header yields: `InvalidHeader` for a byte that
/// may not appear in a header value; otherwise the tokenizer's entries,
/// ranked, with `InvalidMediaType` and `InvalidQ` naming the first
/// offending entry.
pub open spec fn parse_spec(h: Seq<u8>) -> Result<Seq<CandidateView>, AcceptRejection> {
    if !all_visible_ascii(h) {
        Result::Err(AcceptRejection::InvalidHeader)
    } else {
        match header_entries(h) {
            Result::Err(i) => Result::Err(AcceptRejection::InvalidMediaType(i as usize)),
            Result::Ok(es) => rank_entries_spec(es),
        }
    }
}

/// Parses one `Accept` header value into candidates ranked by quality and
/// specificity. An absent header is passed as the empty byte string and
/// yields an empty ranking. The first malformed entry aborts the whole
/// parse: `InvalidHeader` for illegal header bytes, `InvalidMediaType(i)`
/// for an entry that is no media type, `InvalidQ(i)` for a `q` parameter
/// that is no number.
pub fn parse_mediatypes(header: &[u8]) -> (r: Result<Vec<MediaTypeCandidate>, AcceptRejection>)
    ensures
        rank_result_matches(r, parse_spec(header@)),
{
    if !check_visible_ascii(header) {
        return Result::Err(AcceptRejection::InvalidHeader);
    }
    match tokenize_header(header) {
        Result::Err(i) => Result::Err(AcceptRejection::InvalidMediaType(i)),
        Result::Ok(entries) => rank_entries(entries),
    }
}

/// Ranking is pure: any two results obtained for the same header bytes
/// agree entirely, in their error and in every ranked candidate.
pub proof fn lemma_rank_deterministic(
    h: Seq<u8>,
    r1: Result<Vec<MediaTypeCandidate>, AcceptRejection>,
    r2: Result<Vec<MediaTypeCandidate>, AcceptRejection>,
)
    requires
        rank_result_matches(r1, parse_spec(h)),
        rank_result_matches(r2, parse_spec(h)),
    ensures
        (match (r1, r2) {
            (Result::Ok(a), Result::Ok(b)) => a.deep_view() == b.deep_view(),
            (Result::Err(a), Result::Err(b)) => a == b,
            _ => false,
        }),
{
}

} // verus!
