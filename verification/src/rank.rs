//! Ranking of header candidates: a stable sort by descending quality,
//! then ascending specificity class.

use vstd::prelude::*;
use vstd::multiset::Multiset;
use crate::candidate::{
    CandidateView, MediaTypeCandidate, RawEntry, RawEntryView, is_full_wildcard,
    specificity_class,
};
use crate::errors::AcceptRejection;
use crate::qvalue::{parse_q, q_scaled};

verus! {

/// Strict "ranks before" order on sort keys: higher quality first; among
/// equal qualities, the more specific candidate (lower class) first.
pub open spec fn key_lt(a: CandidateView, b: CandidateView) -> bool {
    a.quality > b.quality || (a.quality == b.quality && specificity_class(a) < specificity_class(
        b,
    ))
}

/// `a` may stand before `b` in the ranked order: `b` does not strictly
/// precede `a`.
pub open spec fn key_le(a: CandidateView, b: CandidateView) -> bool {
    !key_lt(b, a)
}

/// Equal sort keys: same quality and same specificity class.
pub open spec fn key_eq(a: CandidateView, b: CandidateView) -> bool {
    a.quality == b.quality && specificity_class(a) == specificity_class(b)
}

/// The sequence is in ranked order.
pub open spec fn ranked_order(s: Seq<CandidateView>) -> bool {
    forall|i: int, j: int| 0 <= i < j < s.len() ==> key_le(#[trigger] s[i], #[trigger] s[j])
}

/// Inserts `c` into `s` just after every entry it does not strictly
/// precede. Inserting each entry of a list this way, in list order, is a
/// stable sort.
pub open spec fn insert_ranked(s: Seq<CandidateView>, c: CandidateView) -> Seq<CandidateView>
    decreases s.len(),
{
    if s.len() > 0 && key_lt(c, s.last()) {
        insert_ranked(s.drop_last(), c).push(s.last())
    } else {
        s.push(c)
    }
}

/// The position at which [`insert_ranked`] places `c`.
pub open spec fn insert_position(s: Seq<CandidateView>, c: CandidateView) -> int
    decreases s.len(),
{
    if s.len() > 0 && key_lt(c, s.last()) {
        insert_position(s.drop_last(), c)
    } else {
        s.len() as int
    }
}

/// The ranked order of a candidate sequence: the stable sort by descending
/// quality, then ascending specificity class, ties keeping list order.
pub open spec fn rank_sorted(s: Seq<CandidateView>) -> Seq<CandidateView>
    decreases s.len(),
{
    if s.len() == 0 {
        Seq::empty()
    } else {
        insert_ranked(rank_sorted(s.drop_last()), s.last())
    }
}

/// Where [`insert_ranked`] puts `c`: at [`insert_position`], every entry
/// from there on strictly after `c`, the entry just before it not.
proof fn lemma_insert_ranked_split(s: Seq<CandidateView>, c: CandidateView)
    ensures
        0 <= insert_position(s, c) <= s.len(),
        insert_ranked(s, c) == s.take(insert_position(s, c)) + seq![c] + s.skip(
            insert_position(s, c),
        ),
        forall|i: int| insert_position(s, c) <= i < s.len() ==> key_lt(c, #[trigger] s[i]),
        insert_position(s, c) > 0 ==> !key_lt(c, s[insert_position(s, c) - 1]),
    decreases s.len(),
{
    let m = insert_position(s, c);
    if s.len() > 0 && key_lt(c, s.last()) {
        lemma_insert_ranked_split(s.drop_last(), c);
        assert(s.drop_last().take(m) =~= s.take(m));
        assert(s.drop_last().skip(m).push(s.last()) =~= s.skip(m));
        assert((s.drop_last().take(m) + seq![c] + s.drop_last().skip(m)).push(s.last()) =~= s.take(
            m,
        ) + seq![c] + s.skip(m));
        assert forall|i: int| m <= i < s.len() implies key_lt(c, #[trigger] s[i]) by {
            if i < s.len() - 1 {
                assert(s[i] == s.drop_last()[i]);
            }
        }
        if m > 0 {
            assert(s[m - 1] == s.drop_last()[m - 1]);
        }
    } else {
        assert(s.take(s.len() as int) =~= s);
        assert(s.skip(s.len() as int) =~= Seq::<CandidateView>::empty());
        assert(s.push(c) =~= s.take(s.len() as int) + seq![c] + s.skip(s.len() as int));
    }
}

/// Inserting into a ranked sequence keeps it ranked.
proof fn lemma_insert_ranked_order(s: Seq<CandidateView>, c: CandidateView)
    requires
        ranked_order(s),
    ensures
        ranked_order(insert_ranked(s, c)),
{
    lemma_insert_ranked_split(s, c);
    let m = insert_position(s, c);
    let r = insert_ranked(s, c);
    assert forall|i: int, j: int| 0 <= i < j < r.len() implies key_le(
        #[trigger] r[i],
        #[trigger] r[j],
    ) by {
        if i < m {
            assert(r[i] == s[i]);
        } else if i == m {
            assert(r[i] == c);
        } else {
            assert(r[i] == s[i - 1]);
        }
        if j < m {
            assert(r[j] == s[j]);
        } else if j == m {
            assert(r[j] == c);
        } else {
            assert(r[j] == s[j - 1]);
        }
        if i == m && j > m {
            assert(key_lt(c, s[j - 1]));
        }
        if j == m && i < m {
            if m > 0 {
                assert(!key_lt(c, s[m - 1]));
            }
        }
    }
}

/// What [`insert_ranked`] holds: the old entries and the new one.
proof fn lemma_insert_ranked_multiset(s: Seq<CandidateView>, c: CandidateView)
    ensures
        insert_ranked(s, c).len() == s.len() + 1,
        insert_ranked(s, c).to_multiset() == s.to_multiset().insert(c),
{
    lemma_insert_ranked_split(s, c);
    let m = insert_position(s, c);
    broadcast use vstd::seq_lib::group_seq_properties;

    assert(s.take(m) + seq![c] + s.skip(m) =~= s.take(m) + (seq![c] + s.skip(m)));
    vstd::seq_lib::lemma_multiset_commutative(s.take(m), seq![c] + s.skip(m));
    vstd::seq_lib::lemma_multiset_commutative(seq![c], s.skip(m));
    vstd::seq_lib::lemma_multiset_commutative(s.take(m), s.skip(m));
    assert(s.take(m) + s.skip(m) =~= s);
    assert(seq![c].to_multiset() =~= Multiset::<CandidateView>::empty().insert(c)) by {
        assert(seq![c] =~= Seq::<CandidateView>::empty().push(c));
        Seq::<CandidateView>::empty().to_multiset_ensures();
    }
    assert(insert_ranked(s, c).to_multiset() =~= s.to_multiset().insert(c));
}

/// What the ranked order of a list holds and how it lies: the same entries,
/// in ranked order.
pub proof fn lemma_rank_sorted_ensures(s: Seq<CandidateView>)
    ensures
        rank_sorted(s).len() == s.len(),
        rank_sorted(s).to_multiset() == s.to_multiset(),
        ranked_order(rank_sorted(s)),
    decreases s.len(),
{
    if s.len() == 0 {
        assert(rank_sorted(s) =~= Seq::<CandidateView>::empty());
        assert(s =~= Seq::<CandidateView>::empty());
    } else {
        let pre = s.drop_last();
        lemma_rank_sorted_ensures(pre);
        lemma_insert_ranked_order(rank_sorted(pre), s.last());
        lemma_insert_ranked_multiset(rank_sorted(pre), s.last());
        pre.to_multiset_ensures();
        assert(pre.push(s.last()) =~= s);
        assert(pre.push(s.last()).to_multiset() =~= pre.to_multiset().insert(s.last()));
    }
}

/// Strictly increasing input positions: what candidate construction
/// guarantees, one entry per header position.
pub open spec fn strictly_indexed(s: Seq<CandidateView>) -> bool {
    forall|i: int, j: int|
        0 <= i < j < s.len() ==> (#[trigger] s[i]).index < (#[trigger] s[j]).index
}

/// Entries with equal sort keys stand in input order.
pub open spec fn stable_by_index(s: Seq<CandidateView>) -> bool {
    forall|i: int, j: int|
        0 <= i < j < s.len() && key_eq(#[trigger] s[i], #[trigger] s[j]) ==> s[i].index
            < s[j].index
}

/// The ranking is stable: when the input positions increase along the list,
/// entries with equal sort keys keep that order in the ranked result.
pub proof fn lemma_rank_sorted_stable(s: Seq<CandidateView>)
    requires
        strictly_indexed(s),
    ensures
        stable_by_index(rank_sorted(s)),
    decreases s.len(),
{
    if s.len() > 0 {
        let pre = s.drop_last();
        let c = s.last();
        let rp = rank_sorted(pre);
        assert(strictly_indexed(pre));
        lemma_rank_sorted_stable(pre);
        lemma_rank_sorted_ensures(pre);
        assert forall|i: int| 0 <= i < rp.len() implies (#[trigger] rp[i]).index < c.index by {
            rp.to_multiset_ensures();
            pre.to_multiset_ensures();
            assert(rp.contains(rp[i]));
            assert(rp.to_multiset().contains(rp[i]));
            assert(pre.to_multiset().contains(rp[i]));
            assert(pre.contains(rp[i]));
            let j = choose|j: int| 0 <= j < pre.len() && pre[j] == rp[i];
            assert(s[j].index < s[s.len() - 1].index);
        }
        lemma_insert_ranked_split(rp, c);
        let m = insert_position(rp, c);
        let r = insert_ranked(rp, c);
        assert(r == rank_sorted(s));
        assert forall|i: int, j: int|
            0 <= i < j < r.len() && key_eq(#[trigger] r[i], #[trigger] r[j]) implies r[i].index
            < r[j].index by {
            if i < m {
                assert(r[i] == rp[i]);
            } else if i == m {
                assert(r[i] == c);
            } else {
                assert(r[i] == rp[i - 1]);
            }
            if j < m {
                assert(r[j] == rp[j]);
            } else if j == m {
                assert(r[j] == c);
            } else {
                assert(r[j] == rp[j - 1]);
            }
            if i == m && j > m {
                assert(key_lt(c, rp[j - 1]));
            }
        }
    }
}

/// Compares two candidates' sort keys: does `a` rank strictly before `b`?
pub fn cand_ranks_before(a: &MediaTypeCandidate, b: &MediaTypeCandidate) -> (r: bool)
    ensures
        r == key_lt(a@, b@),
{
    a.quality > b.quality || (a.quality == b.quality && a.class() < b.class())
}

/// Sorts candidates into ranked order: a stable sort by descending quality,
/// then ascending specificity class.
pub fn rank_candidates(cands: Vec<MediaTypeCandidate>) -> (r: Vec<MediaTypeCandidate>)
    ensures
        r.deep_view() == rank_sorted(cands.deep_view()),
{
    let ghost orig = cands.deep_view();
    let mut rest = cands;
    let mut out: Vec<MediaTypeCandidate> = Vec::new();
    let ghost mut done: int = 0int;
    while rest.len() > 0
        invariant
            0 <= done <= orig.len(),
            rest.deep_view() =~= orig.skip(done),
            out.deep_view() =~= rank_sorted(orig.take(done)),
        decreases rest@.len(),
    {
        let c = rest.remove(0);
        proof {
            assert(orig.skip(done).remove(0) =~= orig.skip(done + 1));
            assert(rest.deep_view() =~= orig.skip(done).remove(0));
            assert(c.deep_view() == orig.skip(done)[0]);
            assert(c.deep_view() == orig[done]);
            lemma_rank_sorted_ensures(orig.take(done));
        }
        let ghost before = out.deep_view();
        let mut m: usize = out.len();
        while m > 0 && cand_ranks_before(&c, &out[m - 1])
            invariant
                out.deep_view() == before,
                0 <= m <= before.len(),
                c.deep_view() == orig[done],
                forall|i: int| m <= i < before.len() ==> key_lt(c.deep_view(), #[trigger] before[i]),
            decreases m,
        {
            m = m - 1;
        }
        proof {
            lemma_insert_ranked_split(before, c.deep_view());
            let ip = insert_position(before, c.deep_view());
            if ip < m {
                assert(key_lt(c.deep_view(), before[m - 1]));
                assert(false);
            }
            if ip > m {
                assert(key_lt(c.deep_view(), before[ip - 1]));
                assert(false);
            }
            assert(ip == m as int);
        }
        out.insert(m, c);
        proof {
            assert(out.deep_view() =~= before.take(m as int) + seq![c.deep_view()] + before.skip(
                m as int,
            ));
            assert(out.deep_view() =~= insert_ranked(before, c.deep_view()));
            assert(orig.take(done + 1).drop_last() =~= orig.take(done));
            assert(orig.take(done + 1).last() == orig[done]);
            assert(out.deep_view() =~= rank_sorted(orig.take(done + 1)));
            done = done + 1;
        }
    }
    proof {
        assert(orig.take(done) =~= orig);
    }
    out
}

/// The scaled quality of one raw entry: its `q` parameter's scaled value,
/// or 1000 when no `q` was written.
pub open spec fn entry_quality(e: RawEntryView) -> Option<u16> {
    match e.q {
        Option::None => Option::Some(1000u16),
        Option::Some(qs) => q_scaled(qs),
    }
}

/// The position of the first entry whose `q` parameter does not parse.
pub open spec fn first_bad_q(es: Seq<RawEntryView>) -> Option<int>
    decreases es.len(),
{
    if es.len() == 0 {
        Option::None
    } else if entry_quality(es[0]) is None {
        Option::Some(0int)
    } else {
        match first_bad_q(es.drop_first()) {
            Option::Some(i) => Option::Some(i + 1),
            Option::None => Option::None,
        }
    }
}

/// The candidate an entry at header position `i` yields.
pub open spec fn candidate_of(e: RawEntryView, i: int) -> CandidateView {
    CandidateView {
        main_type: e.main_type,
        sub_type: e.sub_type,
        suffix: e.suffix,
        quality: match entry_quality(e) {
            Option::Some(q) => q,
            Option::None => 0u16,
        },
        index: i as usize,
    }
}

/// The candidates of an entry list, in header order.
pub open spec fn candidates_of(es: Seq<RawEntryView>) -> Seq<CandidateView> {
    Seq::new(es.len(), |i: int| candidate_of(es[i], i))
}

/// What ranking returns for an entry list: the position of the first bad
/// `q` as an error, else the candidates in ranked order.
pub open spec fn rank_entries_spec(es: Seq<RawEntryView>) -> Result<
    Seq<CandidateView>,
    AcceptRejection,
> {
    match first_bad_q(es) {
        Option::Some(i) => Result::Err(AcceptRejection::InvalidQ(i as usize)),
        Option::None => Result::Ok(rank_sorted(candidates_of(es))),
    }
}

/// An executable ranking result agrees with a specified one.
pub open spec fn rank_result_matches(
    r: Result<Vec<MediaTypeCandidate>, AcceptRejection>,
    s: Result<Seq<CandidateView>, AcceptRejection>,
) -> bool {
    match (r, s) {
        (Result::Ok(v), Result::Ok(sv)) => v.deep_view() == sv,
        (Result::Err(a), Result::Err(b)) => a == b,
        _ => false,
    }
}

/// Where the first `i` entries have well-formed `q` parameters, the first
/// bad one is at `i` exactly when entry `i` is bad; with all entries
/// well-formed there is none.
proof fn lemma_first_bad_q_from(es: Seq<RawEntryView>, i: int)
    requires
        0 <= i <= es.len(),
        forall|j: int| 0 <= j < i ==> entry_quality(#[trigger] es[j]) is Some,
    ensures
        i < es.len() && entry_quality(es[i]) is None ==> first_bad_q(es) == Option::Some(i),
        i == es.len() ==> first_bad_q(es) is None,
    decreases i,
{
    if i == 0 {
    } else {
        let rest = es.drop_first();
        assert(entry_quality(es[0]) is Some);
        assert forall|j: int| 0 <= j < i - 1 implies entry_quality(#[trigger] rest[j]) is Some by {
            assert(rest[j] == es[j + 1]);
        }
        lemma_first_bad_q_from(rest, i - 1);
        if i < es.len() && entry_quality(es[i]) is None {
            assert(rest[i - 1] == es[i]);
        }
    }
}

/// Turns the raw entries of one header into ranked candidates: each entry's
/// `q` is parsed and scaled, a missing `q` counts as full preference, and
/// the candidates are stably sorted by quality and specificity. The first
/// entry with a malformed `q` aborts the whole ranking.
#[verifier::loop_isolation(false)]
pub fn rank_entries(entries: Vec<RawEntry>) -> (r: Result<
    Vec<MediaTypeCandidate>,
    AcceptRejection,
>)
    ensures
        rank_result_matches(r, rank_entries_spec(entries.deep_view())),
{
    let ghost orig = entries.deep_view();
    let mut rest = entries;
    let total = rest.len();
    let mut cands: Vec<MediaTypeCandidate> = Vec::new();
    let mut i: usize = 0;
    while rest.len() > 0
        invariant
            i + rest@.len() == orig.len(),
            orig.len() == total,
            rest.deep_view() =~= orig.skip(i as int),
            forall|j: int| 0 <= j < i ==> entry_quality(#[trigger] orig[j]) is Some,
            cands.deep_view() =~= candidates_of(orig).take(i as int),
        decreases rest@.len(),
    {
        let e = rest.remove(0);
        proof {
            assert(orig.skip(i as int).remove(0) =~= orig.skip(i + 1));
            assert(rest.deep_view() =~= orig.skip(i as int).remove(0));
            assert(e.deep_view() == orig.skip(i as int)[0]);
            assert(e.deep_view() == orig[i as int]);
        }
        let q: u16 = match &e.q {
            Option::None => 1000,
            Option::Some(qs) => {
                match parse_q(qs.as_slice()) {
                    Option::Some(v) => v,
                    Option::None => {
                        proof {
                            assert(entry_quality(orig[i as int]) is None);
                            lemma_first_bad_q_from(orig, i as int);
                        }
                        return Result::Err(AcceptRejection::InvalidQ(i));
                    },
                }
            },
        };
        assert(entry_quality(orig[i as int]) == Option::Some(q));
        let c = MediaTypeCandidate {
            main_type: e.main_type,
            sub_type: e.sub_type,
            suffix: e.suffix,
            quality: q,
            index: i,
        };
        assert(c.deep_view() == candidate_of(orig[i as int], i as int));
        let ghost cands_before = cands.deep_view();
        cands.push(c);
        proof {
            assert(cands@.len() == i + 1);
            assert forall|j: int| 0 <= j < i + 1 implies cands.deep_view()[j] == candidates_of(
                orig,
            ).take(i + 1)[j] by {
                if j < i {
                    assert(cands@[j] == cands@.subrange(0, i as int)[j]);
                    assert(cands.deep_view()[j] == cands_before[j]);
                    assert(cands_before[j] == candidates_of(orig).take(i as int)[j]);
                } else {
                    assert(cands@[j] == c);
                }
            }
            assert(cands.deep_view() =~= candidates_of(orig).take(i + 1));
        }
        i = i + 1;
    }
    proof {
        lemma_first_bad_q_from(orig, orig.len() as int);
        assert(candidates_of(orig).take(orig.len() as int) =~= candidates_of(orig));
    }
    Result::Ok(rank_candidates(cands))
}


/// A header of one entry with no `q` written ranks as that one candidate,
/// its quality treated as maximal.
pub proof fn lemma_single_entry_full_quality(e: RawEntryView)
    requires
        e.q is None,
    ensures
        rank_entries_spec(seq![e]) == Result::<Seq<CandidateView>, AcceptRejection>::Ok(
            seq![candidate_of(e, 0)],
        ),
        candidate_of(e, 0).quality == 1000,
{
    let es = seq![e];
    assert(entry_quality(e) == Option::Some(1000u16));
    assert(es.drop_first() =~= Seq::<RawEntryView>::empty());
    assert(first_bad_q(es.drop_first()) is None);
    assert(first_bad_q(es) is None);
    let cs = candidates_of(es);
    assert(cs =~= seq![candidate_of(e, 0)]);
    assert(cs.drop_last() =~= Seq::<CandidateView>::empty());
    assert(rank_sorted(cs.drop_last()) =~= Seq::<CandidateView>::empty());
    assert(insert_ranked(Seq::<CandidateView>::empty(), cs.last()) =~= seq![cs.last()]);
    assert(rank_sorted(cs) =~= cs);
}

/// Quality strictly dominates specificity: along the ranked order the
/// qualities never increase.
pub proof fn lemma_rank_quality_dominates(s: Seq<CandidateView>, i: int, j: int)
    requires
        0 <= i < j < rank_sorted(s).len(),
    ensures
        rank_sorted(s)[i].quality >= rank_sorted(s)[j].quality,
{
    lemma_rank_sorted_ensures(s);
    assert(key_le(rank_sorted(s)[i], rank_sorted(s)[j]));
}

/// Among candidates of equal quality, the more specific one ranks first:
/// the specificity class never decreases along equal-quality runs. In
/// particular a concrete subtype stands before a subtype wildcard of the
/// same quality.
pub proof fn lemma_rank_specificity(s: Seq<CandidateView>, i: int, j: int)
    requires
        0 <= i < j < rank_sorted(s).len(),
        rank_sorted(s)[i].quality == rank_sorted(s)[j].quality,
    ensures
        specificity_class(rank_sorted(s)[i]) <= specificity_class(rank_sorted(s)[j]),
{
    lemma_rank_sorted_ensures(s);
    assert(key_le(rank_sorted(s)[i], rank_sorted(s)[j]));
}

/// The full wildcard ranks last among its quality peers: whatever follows
/// a `*/*` in the ranked order has strictly lower quality or is itself the
/// full wildcard.
pub proof fn lemma_full_wildcard_last(s: Seq<CandidateView>, i: int, j: int)
    requires
        0 <= i < j < rank_sorted(s).len(),
        is_full_wildcard(rank_sorted(s)[i]),
    ensures
        rank_sorted(s)[j].quality < rank_sorted(s)[i].quality || is_full_wildcard(
            rank_sorted(s)[j],
        ),
{
    lemma_rank_sorted_ensures(s);
    assert(key_le(rank_sorted(s)[i], rank_sorted(s)[j]));
    assert(specificity_class(rank_sorted(s)[i]) == 2);
}


/// The candidates of an entry list carry their header positions, in
/// increasing order.
pub proof fn lemma_candidates_strictly_indexed(es: Seq<RawEntryView>)
    requires
        es.len() <= usize::MAX,
    ensures
        strictly_indexed(candidates_of(es)),
{
}

/// What a successful ranking of an entry list holds: the same candidates,
/// in ranked order, and stably so: entries with equal sort keys keep
/// their header order.
pub proof fn lemma_rank_entries_ok(es: Seq<RawEntryView>)
    requires
        es.len() <= usize::MAX,
        rank_entries_spec(es) is Ok,
    ensures
        rank_entries_spec(es)->Ok_0.len() == es.len(),
        rank_entries_spec(es)->Ok_0.to_multiset() == candidates_of(es).to_multiset(),
        ranked_order(rank_entries_spec(es)->Ok_0),
        stable_by_index(rank_entries_spec(es)->Ok_0),
{
    lemma_rank_sorted_ensures(candidates_of(es));
    lemma_candidates_strictly_indexed(es);
    lemma_rank_sorted_stable(candidates_of(es));
}

} // verus!
