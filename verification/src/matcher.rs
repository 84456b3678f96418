//! Matching ranked candidates against the server's declared variants.
//!
//! The server declares an ordered list of concrete media types, at most one
//! of them marked default. Ranked candidates are scanned in order; the
//! first one that resolves — exactly, through a subtype wildcard, or
//! through the full wildcard — picks the variant.

use vstd::prelude::*;
use crate::bytes::{
    bytes_eq_ignore_case, bytes_is_wildcard, eq_ignore_case, is_wildcard, opt_bytes_eq_ignore_case,
    opt_eq_ignore_case,
};
use crate::candidate::{CandidateView, MediaTypeCandidate, is_full_wildcard};
use crate::errors::AcceptRejection;

verus! {

/// One media type a server can produce, declared ahead of any request.
#[derive(Debug)]
pub struct DeclaredVariant {
    /// The top-level type token; must be concrete.
    pub main_type: Vec<u8>,
    /// The subtype token; must be concrete.
    pub sub_type: Vec<u8>,
    /// The structured-syntax suffix.
    pub suffix: Option<Vec<u8>>,
    /// Whether this variant is the default: the one chosen when no header
    /// was sent or when a full wildcard resolves.
    pub is_default: bool,
}

/// The mathematical content of a [`DeclaredVariant`].
pub ghost struct VariantView {
    /// The top-level type token.
    pub main_type: Seq<u8>,
    /// The subtype token.
    pub sub_type: Seq<u8>,
    /// The structured-syntax suffix.
    pub suffix: Option<Seq<u8>>,
    /// Whether this variant is the default.
    pub is_default: bool,
}

impl View for DeclaredVariant {
    type V = VariantView;

    open spec fn view(&self) -> VariantView {
        VariantView {
            main_type: self.main_type@,
            sub_type: self.sub_type@,
            suffix: match self.suffix {
                Option::None => Option::None,
                Option::Some(v) => Option::Some(v@),
            },
            is_default: self.is_default,
        }
    }
}

impl DeepView for DeclaredVariant {
    type V = VariantView;

    open spec fn deep_view(&self) -> VariantView {
        self.view()
    }
}

/// Why a variant list was rejected at configuration time.
#[derive(Debug, Clone, Copy, PartialEq, Eq, Structural)]
pub enum VariantSetError {
    /// The list is empty: a server must offer at least one variant.
    NoVariants,
    /// The variant at the given position carries a wildcard token.
    WildcardVariant(usize),
    /// The variant at the given position is a second default.
    MultipleDefaults(usize),
}

/// A variant carries no wildcard token.
pub open spec fn variant_is_concrete(v: VariantView) -> bool {
    !is_wildcard(v.main_type) && !is_wildcard(v.sub_type)
}

/// A well-formed variant list: non-empty, every variant concrete, at most
/// one default.
pub open spec fn variants_wf(vs: Seq<VariantView>) -> bool {
    &&& vs.len() > 0
    &&& forall|i: int| 0 <= i < vs.len() ==> variant_is_concrete(#[trigger] vs[i])
    &&& forall|i: int, j: int|
        0 <= i < j < vs.len() ==> !((#[trigger] vs[i]).is_default && (#[trigger] vs[j]).is_default)
}

/// The validation scan from position `i` on, `seen_default` telling
/// whether an earlier variant was the default.
pub open spec fn check_variants_from(vs: Seq<VariantView>, i: int, seen_default: bool) -> Result<
    (),
    VariantSetError,
>
    decreases vs.len() - i,
{
    if i < 0 || i >= vs.len() {
        Result::Ok(())
    } else if !variant_is_concrete(vs[i]) {
        Result::Err(VariantSetError::WildcardVariant(i as usize))
    } else if vs[i].is_default && seen_default {
        Result::Err(VariantSetError::MultipleDefaults(i as usize))
    } else {
        check_variants_from(vs, i + 1, seen_default || vs[i].is_default)
    }
}

/// What validating a declared variant list yields: the first offence in
/// declaration order, or nothing.
pub open spec fn validate_variants(vs: Seq<VariantView>) -> Result<(), VariantSetError> {
    if vs.len() == 0 {
        Result::Err(VariantSetError::NoVariants)
    } else {
        check_variants_from(vs, 0, false)
    }
}

/// A validation scan that passes leaves only concrete variants and no
/// second default behind it.
proof fn lemma_check_variants_ok(vs: Seq<VariantView>, i: int, seen_default: bool)
    requires
        0 <= i <= vs.len(),
        check_variants_from(vs, i, seen_default) is Ok,
    ensures
        forall|j: int| i <= j < vs.len() ==> variant_is_concrete(#[trigger] vs[j]),
        seen_default ==> forall|j: int| i <= j < vs.len() ==> !(#[trigger] vs[j]).is_default,
        forall|j1: int, j2: int|
            i <= j1 < j2 < vs.len() ==> !((#[trigger] vs[j1]).is_default && (
            #[trigger] vs[j2]).is_default),
    decreases vs.len() - i,
{
    if i < vs.len() {
        lemma_check_variants_ok(vs, i + 1, seen_default || vs[i].is_default);
    }
}

/// The server's declared variants, validated once at configuration time.
pub struct VariantSet {
    variants: Vec<DeclaredVariant>,
}

impl View for VariantSet {
    type V = Seq<VariantView>;

    closed spec fn view(&self) -> Seq<VariantView> {
        self.variants.deep_view()
    }
}

impl VariantSet {
    /// The declared variants are well-formed: non-empty, concrete, at most
    /// one default.
    #[verifier::type_invariant]
    pub closed spec fn wf(self) -> bool {
        variants_wf(self.variants.deep_view())
    }

    /// Builds a variant set, validating the configuration: the list must
    /// not be empty, no variant may carry a wildcard, and at most one may
    /// be the default. The first offence in declaration order is reported.
    pub fn new(variants: Vec<DeclaredVariant>) -> (r: Result<VariantSet, VariantSetError>)
        ensures
            (match r {
                Result::Ok(set) => validate_variants(variants.deep_view()) is Ok && set@
                    == variants.deep_view(),
                Result::Err(e) => validate_variants(variants.deep_view()) == Result::<
                    (),
                    VariantSetError,
                >::Err(e),
            }),
    {
        let ghost dv = variants.deep_view();
        let n = variants.len();
        proof {
            assert(dv.len() == n);
        }
        if n == 0 {
            return Result::Err(VariantSetError::NoVariants);
        }
        let mut i: usize = 0;
        let mut seen_default = false;
        #[verifier::loop_isolation(false)]
        while i < n
            invariant
                0 <= i <= n,
                check_variants_from(dv, 0, false) == check_variants_from(
                    dv,
                    i as int,
                    seen_default,
                ),
            decreases n - i,
        {
            let v = &variants[i];
            proof {
                assert(v.deep_view() == dv[i as int]);
            }
            let main_star = bytes_is_wildcard(v.main_type.as_slice());
            let sub_star = bytes_is_wildcard(v.sub_type.as_slice());
            if main_star || sub_star {
                return Result::Err(VariantSetError::WildcardVariant(i));
            }
            if v.is_default {
                if seen_default {
                    return Result::Err(VariantSetError::MultipleDefaults(i));
                }
                seen_default = true;
            }
            i = i + 1;
        }
        proof {
            assert(check_variants_from(dv, 0, false) is Ok);
            lemma_check_variants_ok(dv, 0, false);
            assert(variants_wf(dv));
        }
        Result::Ok(VariantSet { variants })
    }

    /// How many variants are declared.
    pub fn len(&self) -> (n: usize)
        ensures
            n == self@.len(),
            n > 0,
    {
        proof {
            use_type_invariant(self);
        }
        self.variants.len()
    }
}

/// The position of the default variant, scanning from `i` on.
pub open spec fn default_index_from(vs: Seq<VariantView>, i: int) -> Option<int>
    decreases vs.len() - i,
{
    if i < 0 || i >= vs.len() {
        Option::None
    } else if vs[i].is_default {
        Option::Some(i)
    } else {
        default_index_from(vs, i + 1)
    }
}

/// The position of the default variant, if one is declared.
pub open spec fn default_index(vs: Seq<VariantView>) -> Option<int> {
    default_index_from(vs, 0)
}

/// An exact match: same type, subtype and suffix, ASCII case ignored.
pub open spec fn exact_match(v: VariantView, c: CandidateView) -> bool {
    &&& eq_ignore_case(v.main_type, c.main_type)
    &&& eq_ignore_case(v.sub_type, c.sub_type)
    &&& opt_eq_ignore_case(v.suffix, c.suffix)
}

/// The position of the first variant matching the candidate exactly,
/// scanning from `i` on.
pub open spec fn first_exact_from(vs: Seq<VariantView>, c: CandidateView, i: int) -> Option<int>
    decreases vs.len() - i,
{
    if i < 0 || i >= vs.len() {
        Option::None
    } else if exact_match(vs[i], c) {
        Option::Some(i)
    } else {
        first_exact_from(vs, c, i + 1)
    }
}

/// The position of the last variant whose main type equals `m`, ASCII case
/// ignored: for the subtype-wildcard tier, later declarations shadow
/// earlier ones that share the main type.
pub open spec fn last_with_main(vs: Seq<VariantView>, m: Seq<u8>) -> Option<int>
    decreases vs.len(),
{
    if vs.len() == 0 {
        Option::None
    } else if eq_ignore_case(vs.last().main_type, m) {
        Option::Some(vs.len() - 1)
    } else {
        last_with_main(vs.drop_last(), m)
    }
}

/// The scan over ranked candidates: the first candidate that resolves to a
/// tier picks the variant; a candidate that resolves to none is skipped.
pub open spec fn scan_candidates(ranked: Seq<CandidateView>, vs: Seq<VariantView>) -> Option<int>
    decreases ranked.len(),
{
    if ranked.len() == 0 {
        Option::None
    } else {
        let c = ranked[0];
        if is_full_wildcard(c) {
            match default_index(vs) {
                Option::Some(d) => Option::Some(d),
                Option::None => Option::Some(0int),
            }
        } else if is_wildcard(c.sub_type) {
            match last_with_main(vs, c.main_type) {
                Option::Some(j) => Option::Some(j),
                Option::None => scan_candidates(ranked.drop_first(), vs),
            }
        } else {
            match first_exact_from(vs, c, 0) {
                Option::Some(j) => Option::Some(j),
                Option::None => scan_candidates(ranked.drop_first(), vs),
            }
        }
    }
}

/// What matching yields: an empty ranking falls to the default if one is
/// declared; otherwise the scan decides, and an exhausted scan is failure.
pub open spec fn match_spec(ranked: Seq<CandidateView>, vs: Seq<VariantView>) -> Option<int> {
    if ranked.len() == 0 && default_index(vs) is Some {
        default_index(vs)
    } else {
        scan_candidates(ranked, vs)
    }
}

proof fn lemma_default_index_in_range(vs: Seq<VariantView>, i: int)
    ensures
        default_index_from(vs, i) matches Option::Some(j) ==> 0 <= j < vs.len(),
    decreases vs.len() - i,
{
    if 0 <= i < vs.len() && !vs[i].is_default {
        lemma_default_index_in_range(vs, i + 1);
    }
}

proof fn lemma_first_exact_in_range(vs: Seq<VariantView>, c: CandidateView, i: int)
    ensures
        first_exact_from(vs, c, i) matches Option::Some(j) ==> 0 <= j < vs.len(),
    decreases vs.len() - i,
{
    if 0 <= i < vs.len() && !exact_match(vs[i], c) {
        lemma_first_exact_in_range(vs, c, i + 1);
    }
}

proof fn lemma_last_with_main_in_range(vs: Seq<VariantView>, m: Seq<u8>)
    ensures
        last_with_main(vs, m) matches Option::Some(j) ==> 0 <= j < vs.len(),
    decreases vs.len(),
{
    if vs.len() > 0 && !eq_ignore_case(vs.last().main_type, m) {
        lemma_last_with_main_in_range(vs.drop_last(), m);
    }
}

/// A match on a non-empty variant list names a declared position.
pub proof fn lemma_match_spec_in_range(ranked: Seq<CandidateView>, vs: Seq<VariantView>)
    requires
        vs.len() > 0,
    ensures
        match_spec(ranked, vs) matches Option::Some(j) ==> 0 <= j < vs.len(),
    decreases ranked.len(),
{
    lemma_default_index_in_range(vs, 0);
    if ranked.len() > 0 {
        lemma_first_exact_in_range(vs, ranked[0], 0);
        lemma_last_with_main_in_range(vs, ranked[0].main_type);
        lemma_match_spec_in_range(ranked.drop_first(), vs);
    }
}

impl VariantSet {
    /// The position of the default variant, if one is declared.
    fn default_position(&self) -> (r: Option<usize>)
        ensures
            (match r {
                Option::Some(d) => default_index(self@) == Option::Some(d as int),
                Option::None => default_index(self@) is None,
            }),
    {
        let ghost vs = self@;
        let n = self.variants.len();
        let mut i: usize = 0;
        #[verifier::loop_isolation(false)]
        while i < n
            invariant
                0 <= i <= n == vs.len(),
                default_index(vs) == default_index_from(vs, i as int),
            decreases n - i,
        {
            proof {
                assert(self.variants[i as int].deep_view() == vs[i as int]);
            }
            if self.variants[i].is_default {
                return Option::Some(i);
            }
            i = i + 1;
        }
        Option::None
    }

    /// The position of the last declared variant sharing the main type.
    fn last_position_with_main(&self, m: &[u8]) -> (r: Option<usize>)
        ensures
            (match r {
                Option::Some(j) => last_with_main(self@, m@) == Option::Some(j as int),
                Option::None => last_with_main(self@, m@) is None,
            }),
    {
        let ghost vs = self@;
        let n = self.variants.len();
        let mut i: usize = n;
        proof {
            assert(vs.take(n as int) =~= vs);
        }
        #[verifier::loop_isolation(false)]
        while i > 0
            invariant
                0 <= i <= n == vs.len(),
                last_with_main(vs, m@) == last_with_main(vs.take(i as int), m@),
            decreases i,
        {
            proof {
                assert(self.variants[i - 1].deep_view() == vs[i - 1]);
                assert(vs.take(i as int).last() == vs[i - 1]);
                assert(vs.take(i as int).drop_last() =~= vs.take(i - 1));
            }
            if bytes_eq_ignore_case(self.variants[i - 1].main_type.as_slice(), m) {
                return Option::Some(i - 1);
            }
            i = i - 1;
        }
        proof {
            assert(vs.take(0) =~= Seq::<VariantView>::empty());
        }
        Option::None
    }

    /// The position of the first declared variant matching the candidate
    /// exactly.
    fn first_exact_position(&self, c: &MediaTypeCandidate) -> (r: Option<usize>)
        ensures
            (match r {
                Option::Some(j) => first_exact_from(self@, c@, 0) == Option::Some(j as int),
                Option::None => first_exact_from(self@, c@, 0) is None,
            }),
    {
        let ghost vs = self@;
        let n = self.variants.len();
        let mut i: usize = 0;
        #[verifier::loop_isolation(false)]
        while i < n
            invariant
                0 <= i <= n == vs.len(),
                first_exact_from(vs, c@, 0) == first_exact_from(vs, c@, i as int),
            decreases n - i,
        {
            let v = &self.variants[i];
            proof {
                assert(v.deep_view() == vs[i as int]);
            }
            let main_eq = bytes_eq_ignore_case(v.main_type.as_slice(), c.main_type.as_slice());
            let sub_eq = bytes_eq_ignore_case(v.sub_type.as_slice(), c.sub_type.as_slice());
            let suffix_eq = opt_bytes_eq_ignore_case(&v.suffix, &c.suffix);
            if main_eq && sub_eq && suffix_eq {
                return Option::Some(i);
            }
            i = i + 1;
        }
        Option::None
    }

    /// Matches ranked candidates against the declared variants and returns
    /// the position of the selected variant. The candidates are scanned in
    /// rank order; the first that resolves decides: a full wildcard picks
    /// the default, or the first-declared variant if none is marked; a
    /// subtype wildcard picks the last-declared variant sharing the main
    /// type; anything else must match a variant's type, subtype and suffix
    /// exactly, the first declared winning. An empty ranking picks the
    /// default if one is declared. With nothing resolved, matching fails
    /// with `NoSupportedMediaTypeFound`.
    pub fn match_candidates(&self, ranked: &Vec<MediaTypeCandidate>) -> (r: Result<
        usize,
        AcceptRejection,
    >)
        ensures
            (match match_spec(ranked.deep_view(), self@) {
                Option::Some(j) => r == Result::<usize, AcceptRejection>::Ok(j as usize) && 0 <= j
                    < self@.len(),
                Option::None => r == Result::<usize, AcceptRejection>::Err(
                    AcceptRejection::NoSupportedMediaTypeFound,
                ),
            }),
    {
        proof {
            use_type_invariant(self);
            lemma_match_spec_in_range(ranked.deep_view(), self@);
        }
        let ghost rv = ranked.deep_view();
        let ghost vs = self@;
        let dflt = self.default_position();
        let n = ranked.len();
        if n == 0 {
            return match dflt {
                Option::Some(d) => Result::Ok(d),
                Option::None => Result::Err(AcceptRejection::NoSupportedMediaTypeFound),
            };
        }
        let mut i: usize = 0;
        proof {
            assert(rv.skip(0) =~= rv);
        }
        #[verifier::loop_isolation(false)]
        while i < n
            invariant
                0 <= i <= n == rv.len(),
                scan_candidates(rv, vs) == scan_candidates(rv.skip(i as int), vs),
            decreases n - i,
        {
            let c = &ranked[i];
            proof {
                assert(c.deep_view() == rv[i as int]);
                assert(rv.skip(i as int)[0] == rv[i as int]);
                assert(rv.skip(i as int).drop_first() =~= rv.skip(i + 1));
            }
            let main_star = bytes_is_wildcard(c.main_type.as_slice());
            let sub_star = bytes_is_wildcard(c.sub_type.as_slice());
            if main_star && sub_star {
                return match dflt {
                    Option::Some(d) => Result::Ok(d),
                    Option::None => Result::Ok(0),
                };
            } else if sub_star {
                match self.last_position_with_main(c.main_type.as_slice()) {
                    Option::Some(j) => {
                        return Result::Ok(j);
                    },
                    Option::None => {},
                }
            } else {
                match self.first_exact_position(c) {
                    Option::Some(j) => {
                        return Result::Ok(j);
                    },
                    Option::None => {},
                }
            }
            i = i + 1;
        }
        proof {
            assert(rv.skip(n as int) =~= Seq::<CandidateView>::empty());
        }
        Result::Err(AcceptRejection::NoSupportedMediaTypeFound)
    }
}

/// An empty ranking — no header sent, or a header that reduced to nothing
/// — resolves to the default variant when one is declared, without
/// consulting any candidate.
pub proof fn lemma_empty_ranking_default(vs: Seq<VariantView>)
    requires
        default_index(vs) is Some,
    ensures
        match_spec(Seq::empty(), vs) == default_index(vs),
{
}

/// A full-wildcard candidate resolves the scan immediately, wherever it
/// ranks: to the default variant if one is declared, else to the
/// first-declared variant.
pub proof fn lemma_full_wildcard_resolves(ranked: Seq<CandidateView>, vs: Seq<VariantView>)
    requires
        ranked.len() > 0,
        is_full_wildcard(ranked[0]),
    ensures
        match_spec(ranked, vs) == (match default_index(vs) {
            Option::Some(d) => Option::Some(d),
            Option::None => Option::Some(0int),
        }),
{
}

/// What a whole negotiation yields for one header value and one variant
/// list: a parse error passes through; otherwise the ranked candidates
/// are matched, and an exhausted match is `NoSupportedMediaTypeFound`.
pub open spec fn negotiate_spec(h: Seq<u8>, vs: Seq<VariantView>) -> Result<int, AcceptRejection> {
    match crate::header::parse_spec(h) {
        Result::Err(e) => Result::Err(e),
        Result::Ok(ranked) => match match_spec(ranked, vs) {
            Option::Some(j) => Result::Ok(j),
            Option::None => Result::Err(AcceptRejection::NoSupportedMediaTypeFound),
        },
    }
}

impl VariantSet {
    /// Runs one whole negotiation: the header value is parsed into ranked
    /// candidates, and those are matched against the declared variants.
    /// An absent header is passed as the empty byte string and resolves to
    /// the default variant if one is declared.
    pub fn negotiate(&self, header: &[u8]) -> (r: Result<usize, AcceptRejection>)
        ensures
            (match negotiate_spec(header@, self@) {
                Result::Ok(j) => r == Result::<usize, AcceptRejection>::Ok(j as usize) && 0 <= j
                    < self@.len(),
                Result::Err(e) => r == Result::<usize, AcceptRejection>::Err(e),
            }),
    {
        let ranked = match crate::header::parse_mediatypes(header) {
            Result::Ok(v) => v,
            Result::Err(e) => {
                return Result::Err(e);
            },
        };
        self.match_candidates(&ranked)
    }
}

} // verus!
