//! The data handed through the negotiation pipeline: raw header entries as
//! the tokenizer returns them, and ranked media-type candidates.

use vstd::prelude::*;
use crate::bytes::is_wildcard;

verus! {

/// One entry of an `Accept` header as the tokenizer hands it over: the
/// media-type tokens and the raw `q` parameter value, if one was present.
#[derive(Debug)]
pub struct RawEntry {
    /// The top-level type token.
    pub main_type: Vec<u8>,
    /// The subtype token.
    pub sub_type: Vec<u8>,
    /// The structured-syntax suffix, e.g. `json` in `application/ld+json`.
    pub suffix: Option<Vec<u8>>,
    /// The raw value of the `q` parameter, if the entry carried one.
    pub q: Option<Vec<u8>>,
}

/// The mathematical content of a [`RawEntry`].
pub ghost struct RawEntryView {
    /// The top-level type token.
    pub main_type: Seq<u8>,
    /// The subtype token.
    pub sub_type: Seq<u8>,
    /// The structured-syntax suffix.
    pub suffix: Option<Seq<u8>>,
    /// The raw value of the `q` parameter.
    pub q: Option<Seq<u8>>,
}

impl View for RawEntry {
    type V = RawEntryView;

    open spec fn view(&self) -> RawEntryView {
        RawEntryView {
            main_type: self.main_type@,
            sub_type: self.sub_type@,
            suffix: match self.suffix {
                Option::None => Option::None,
                Option::Some(v) => Option::Some(v@),
            },
            q: match self.q {
                Option::None => Option::None,
                Option::Some(v) => Option::Some(v@),
            },
        }
    }
}

impl DeepView for RawEntry {
    type V = RawEntryView;

    open spec fn deep_view(&self) -> RawEntryView {
        self.view()
    }
}

/// One candidate media type parsed from the header, carrying its scaled
/// quality weight and its zero-based position in the header.
#[derive(Debug)]
pub struct MediaTypeCandidate {
    /// The top-level type token; `*` is the wildcard.
    pub main_type: Vec<u8>,
    /// The subtype token; `*` is the wildcard.
    pub sub_type: Vec<u8>,
    /// The structured-syntax suffix.
    pub suffix: Option<Vec<u8>>,
    /// The `q` weight scaled to `[0, 1000]`; an absent `q` counts as `1000`.
    pub quality: u16,
    /// The zero-based position of the entry in the header.
    pub index: usize,
}

/// The mathematical content of a [`MediaTypeCandidate`].
pub ghost struct CandidateView {
    /// The top-level type token.
    pub main_type: Seq<u8>,
    /// The subtype token.
    pub sub_type: Seq<u8>,
    /// The structured-syntax suffix.
    pub suffix: Option<Seq<u8>>,
    /// The `q` weight scaled to `[0, 1000]`.
    pub quality: u16,
    /// The zero-based position of the entry in the header.
    pub index: usize,
}

impl View for MediaTypeCandidate {
    type V = CandidateView;

    open spec fn view(&self) -> CandidateView {
        CandidateView {
            main_type: self.main_type@,
            sub_type: self.sub_type@,
            suffix: match self.suffix {
                Option::None => Option::None,
                Option::Some(v) => Option::Some(v@),
            },
            quality: self.quality,
            index: self.index,
        }
    }
}

impl DeepView for MediaTypeCandidate {
    type V = CandidateView;

    open spec fn deep_view(&self) -> CandidateView {
        self.view()
    }
}

/// How specific a candidate is: `0` for a concrete media type, `1` for a
/// subtype wildcard such as `text/*`, and `2` for the full wildcard `*/*`.
/// Lower values are preferred.
pub open spec fn specificity_class(c: CandidateView) -> int {
    if is_wildcard(c.main_type) && is_wildcard(c.sub_type) {
        2
    } else if is_wildcard(c.sub_type) {
        1
    } else {
        0
    }
}

/// The full wildcard `*/*`.
pub open spec fn is_full_wildcard(c: CandidateView) -> bool {
    is_wildcard(c.main_type) && is_wildcard(c.sub_type)
}

impl MediaTypeCandidate {
    /// How specific this candidate is, as [`specificity_class`] counts it.
    pub fn class(&self) -> (r: u8)
        ensures
            r as int == specificity_class(self@),
    {
        let main_star = crate::bytes::bytes_is_wildcard(self.main_type.as_slice());
        let sub_star = crate::bytes::bytes_is_wildcard(self.sub_type.as_slice());
        if main_star && sub_star {
            2
        } else if sub_star {
            1
        } else {
            0
        }
    }
}

} // verus!
