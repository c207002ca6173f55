//! Fuzzy ranking of catalog records against a query, and pagination.
use vstd::prelude::*;

use fuzzy_matcher::skim::SkimMatcherV2;
use fuzzy_matcher::FuzzyMatcher;

use crate::entry::EntryView;
use crate::sorted::{asymmetric, lemma_sorted_unique, strictly_sorted};

verus! {

/// The score of `pattern` against `choice` under skim's V2 fuzzy matcher in
/// its default configuration, or nothing where the pattern does not match.
pub uninterp spec fn skim_score(choice: Seq<char>, pattern: Seq<char>) -> Option<i64>;

/// Relies on `SkimMatcherV2::fuzzy_match` (default matcher): its result
/// depends on the two strings alone.
#[verifier::external_body]
pub(crate) fn fuzzy_score(choice: &str, pattern: &str) -> (r: Option<i64>)
    ensures
        r == skim_score(choice@, pattern@),
{
    SkimMatcherV2::default().fuzzy_match(choice, pattern)
}

/// The record at position `i` matches the query.
pub open spec fn matches_at(cat: Seq<EntryView>, q: Seq<char>, i: int) -> bool {
    0 <= i < cat.len() && skim_score(cat[i].name, q) is Some
}

/// The score of the record at position `i` (meaningful where it matches).
pub open spec fn score_at(cat: Seq<EntryView>, q: Seq<char>, i: int) -> int {
    skim_score(cat[i].name, q)->Some_0 as int
}

/// Ranking order on positions: higher score first, then catalog order.
pub open spec fn ranks_before(cat: Seq<EntryView>, q: Seq<char>) -> spec_fn(int, int) -> bool {
    |a: int, b: int|
        score_at(cat, q, a) > score_at(cat, q, b) || (score_at(cat, q, a) == score_at(cat, q, b)
            && a < b)
}

/// `r` lists the positions of exactly the matching records, each once, in
/// ranking order.
pub open spec fn is_ranking(cat: Seq<EntryView>, q: Seq<char>, r: Seq<int>) -> bool {
    &&& strictly_sorted(r, ranks_before(cat, q))
    &&& forall|i: int| #[trigger] r.contains(i) <==> matches_at(cat, q, i)
}

/// The ranking of the catalog against a query (unique: see `lemma_ranking_unique`).
pub open spec fn ranking(cat: Seq<EntryView>, q: Seq<char>) -> Seq<int> {
    choose|r: Seq<int>| is_ranking(cat, q, r)
}

/// The records of a ranking, in its order.
pub open spec fn ranked_records(cat: Seq<EntryView>, r: Seq<int>) -> Seq<EntryView> {
    r.map_values(|i: int| cat[i])
}

/// The part of `s` that starts at `offset` and holds at most `limit` items.
pub open spec fn page<A>(s: Seq<A>, offset: int, limit: int) -> Seq<A> {
    if offset >= s.len() {
        Seq::empty()
    } else if offset + limit >= s.len() {
        s.subrange(offset, s.len() as int)
    } else {
        s.subrange(offset, offset + limit)
    }
}

/// There is one ranking only: any two are equal.
pub proof fn lemma_ranking_unique(cat: Seq<EntryView>, q: Seq<char>, r1: Seq<int>, r2: Seq<int>)
    requires
        is_ranking(cat, q, r1),
        is_ranking(cat, q, r2),
    ensures
        r1 == r2,
{
    assert forall|x: int, y: int| #[trigger] ranks_before(cat, q)(x, y) implies !ranks_before(cat, q)(y, x) by {}
    assert(asymmetric(ranks_before(cat, q)));
    lemma_sorted_unique(r1, r2, ranks_before(cat, q));
}

/// Filtering: every record of a ranking matches the query, and every
/// matching record is in it.
pub proof fn lemma_ranking_filters(cat: Seq<EntryView>, q: Seq<char>, r: Seq<int>)
    requires
        is_ranking(cat, q, r),
    ensures
        forall|k: int| 0 <= k < r.len() ==> skim_score(#[trigger] ranked_records(cat, r)[k].name, q) is Some,
        forall|i: int| 0 <= i < cat.len() && skim_score(cat[i].name, q) is Some ==> #[trigger] r.contains(i),
{
    assert forall|k: int| 0 <= k < r.len() implies skim_score(#[trigger] ranked_records(cat, r)[k].name, q) is Some by {
        assert(r.contains(r[k]));
    }
    assert forall|i: int| 0 <= i < cat.len() && skim_score(cat[i].name, q) is Some implies #[trigger] r.contains(i) by {
        assert(matches_at(cat, q, i));
    }
}

/// Monotonicity: of two matching records, the one with the higher score
/// comes first in the ranking.
pub proof fn lemma_ranking_monotonic(cat: Seq<EntryView>, q: Seq<char>, r: Seq<int>, a: int, b: int)
    requires
        is_ranking(cat, q, r),
        matches_at(cat, q, a),
        matches_at(cat, q, b),
        score_at(cat, q, a) > score_at(cat, q, b),
    ensures
        r.contains(a),
        r.contains(b),
        r.index_of(a) < r.index_of(b),
{
    assert(r.contains(a));
    assert(r.contains(b));
    let pa = r.index_of(a);
    let pb = r.index_of(b);
    if pb < pa {
        assert(ranks_before(cat, q)(r[pb], r[pa]));
    }
}

} // verus!
