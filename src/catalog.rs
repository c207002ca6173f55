//! The catalog: records ordered by case-folded id, one per case-folded id.
use vstd::prelude::*;

use crate::entry::{DesktopEntry, EntryView, strings_view};
use crate::sorted::{asymmetric, lemma_sorted_unique, strictly_sorted};
use crate::text::{compare_str, lemma_lex_order, lex_lt, lower_of, lowercase};

verus! {

/// The views of a sequence of records.
pub open spec fn views(s: Seq<DesktopEntry>) -> Seq<EntryView> {
    s.map_values(|e: DesktopEntry| e@)
}

/// The key that orders and deduplicates records: the case-folded id.
pub open spec fn key_of(e: EntryView) -> Seq<char> {
    lower_of(e.id)
}

pub open spec fn keys_of(c: Seq<EntryView>) -> Seq<Seq<char>> {
    c.map_values(|e: EntryView| key_of(e))
}

/// Strict lexicographic order, as a value.
pub open spec fn lex_order() -> spec_fn(Seq<char>, Seq<char>) -> bool {
    |a: Seq<char>, b: Seq<char>| lex_lt(a, b)
}

/// `records[k]` is the last of `records` with its key.
pub open spec fn last_with_key(records: Seq<EntryView>, k: int) -> bool {
    &&& 0 <= k < records.len()
    &&& forall|l: int| k < l < records.len() ==> key_of(#[trigger] records[l]) != key_of(records[k])
}

/// `e` is a record of `records` that no later one shares its key with.
pub open spec fn is_last_of_its_key(records: Seq<EntryView>, e: EntryView) -> bool {
    exists|k: int| #[trigger] last_with_key(records, k) && e == records[k]
}

/// `c` is the catalog of `records`: its keys ascend strictly, every key of
/// `records` is among them, and each record of `c` is the last one of
/// `records` with its key.
pub open spec fn is_catalog_of(records: Seq<EntryView>, c: Seq<EntryView>) -> bool {
    &&& strictly_sorted(keys_of(c), lex_order())
    &&& forall|k: int| 0 <= k < records.len() ==> #[trigger] keys_of(c).contains(key_of(records[k]))
    &&& forall|i: int| 0 <= i < c.len() ==> is_last_of_its_key(records, #[trigger] c[i])
}

/// Lexicographic order, taken as a value, is asymmetric.
pub proof fn lemma_lex_order_asymmetric()
    ensures
        asymmetric(lex_order()),
{
    assert forall|x: Seq<char>, y: Seq<char>| #[trigger] lex_order()(x, y) implies !lex_order()(y, x) by {
        lemma_lex_order(x, y, x);
    }
}

/// Two catalogs of the same records are equal.
pub proof fn lemma_catalog_unique(records: Seq<EntryView>, c1: Seq<EntryView>, c2: Seq<EntryView>)
    requires
        is_catalog_of(records, c1),
        is_catalog_of(records, c2),
    ensures
        c1 == c2,
{
    let k1 = keys_of(c1);
    let k2 = keys_of(c2);
    assert forall|x: Seq<char>| k1.contains(x) implies k2.contains(x) by {
        let i = choose|i: int| 0 <= i < k1.len() && k1[i] == x;
        let k = choose|k: int| #[trigger] last_with_key(records, k) && c1[i] == records[k];
        assert(k2.contains(key_of(records[k])));
    }
    assert forall|x: Seq<char>| k2.contains(x) implies k1.contains(x) by {
        let i = choose|i: int| 0 <= i < k2.len() && k2[i] == x;
        let k = choose|k: int| #[trigger] last_with_key(records, k) && c2[i] == records[k];
        assert(k1.contains(key_of(records[k])));
    }
    lemma_lex_order_asymmetric();
    lemma_sorted_unique(k1, k2, lex_order());
    assert forall|i: int| 0 <= i < c1.len() implies c1[i] == c2[i] by {
        let a = choose|k: int| #[trigger] last_with_key(records, k) && c1[i] == records[k];
        let b = choose|k: int| #[trigger] last_with_key(records, k) && c2[i] == records[k];
        assert(k1[i] == k2[i]);
        if a < b {
            assert(key_of(records[b]) != key_of(records[a]));
        } else if b < a {
            assert(key_of(records[a]) != key_of(records[b]));
        }
    }
    assert(c1.len() == k1.len());
    assert(c1 =~= c2);
}

/// Position of the first key that does not come before `k`.
fn lower_bound(keys: &Vec<String>, k: &str) -> (p: usize)
    requires
        strictly_sorted(strings_view(keys@), lex_order()),
    ensures
        p <= keys.len(),
        forall|j: int| 0 <= j < p ==> lex_lt(#[trigger] keys@[j]@, k@),
        forall|j: int| p <= j < keys.len() ==> !lex_lt(#[trigger] keys@[j]@, k@),
{
    let mut lo: usize = 0;
    let mut hi: usize = keys.len();
    while lo < hi
        invariant
            lo <= hi <= keys.len(),
            strictly_sorted(strings_view(keys@), lex_order()),
            forall|j: int| 0 <= j < lo ==> lex_lt(#[trigger] keys@[j]@, k@),
            forall|j: int| hi <= j < keys.len() ==> !lex_lt(#[trigger] keys@[j]@, k@),
        decreases hi - lo,
    {
        let mid = lo + (hi - lo) / 2;
        if compare_str(keys[mid].as_str(), k) < 0 {
            assert forall|j: int| 0 <= j <= mid implies lex_lt(#[trigger] keys@[j]@, k@) by {
                if j < mid {
                    assert(lex_order()(strings_view(keys@)[j], strings_view(keys@)[mid as int]));
                    lemma_lex_order(keys@[j]@, keys@[mid as int]@, k@);
                }
            }
            lo = mid + 1;
        } else {
            assert forall|j: int| mid <= j < keys.len() implies !lex_lt(#[trigger] keys@[j]@, k@) by {
                if j > mid {
                    assert(lex_order()(strings_view(keys@)[mid as int], strings_view(keys@)[j]));
                    lemma_lex_order(keys@[mid as int]@, keys@[j]@, k@);
                }
            }
            hi = mid;
        }
    }
    lo
}

pub(crate) proof fn lemma_views_push(s: Seq<DesktopEntry>, e: DesktopEntry)
    ensures
        views(s.push(e)) == views(s).push(e@),
{
    assert(views(s.push(e)) =~= views(s).push(e@));
}

/// Sorts `records` by case-folded id, keeping of each case-folded id only the
/// last record that has it; returns the keys beside the records.
pub(crate) fn sorted_unique(records: &Vec<DesktopEntry>) -> (r: (Vec<String>, Vec<DesktopEntry>))
    ensures
        is_catalog_of(views(records@), views(r.1@)),
        strings_view(r.0@) == keys_of(views(r.1@)),
{
    let mut keys: Vec<String> = Vec::new();
    let mut entries: Vec<DesktopEntry> = Vec::new();
    let mut n: usize = 0;
    proof {
        assert(strings_view(keys@) =~= keys_of(views(entries@)));
    }
    while n < records.len()
        invariant
            n <= records.len(),
            keys.len() == entries.len(),
            strings_view(keys@) == keys_of(views(entries@)),
            is_catalog_of(views(records@.subrange(0, n as int)), views(entries@)),
        decreases records.len() - n,
    {
        let ghost rs = views(records@.subrange(0, n as int));
        let ghost c = views(entries@);
        let ghost rv = records@[n as int]@;
        proof {
            assert(records@.subrange(0, n + 1) =~= records@.subrange(0, n as int).push(records@[n as int]));
            lemma_views_push(records@.subrange(0, n as int), records@[n as int]);
        }
        let ghost rs2 = views(records@.subrange(0, n + 1));
        assert(rs2 == rs.push(rv));
        let key = lowercase(records[n].id.as_str());
        assert(key@ == key_of(rv));
        let p = lower_bound(&keys, key.as_str());
        let e = records[n].duplicate();
        if p < keys.len() && compare_str(keys[p].as_str(), key.as_str()) == 0 {
            entries.set(p, e);
            proof {
                let c2 = views(entries@);
                assert(c2 =~= c.update(p as int, rv));
                assert(keys_of(c2) =~= keys_of(c));
                assert forall|k: int| 0 <= k < rs2.len() implies #[trigger] keys_of(c2).contains(key_of(rs2[k])) by {
                    if k < rs.len() {
                        assert(keys_of(c).contains(key_of(rs[k])));
                    } else {
                        assert(keys_of(c2)[p as int] == key_of(rs2[k]));
                    }
                }
                assert forall|i: int| 0 <= i < c2.len() implies is_last_of_its_key(rs2, #[trigger] c2[i]) by {
                    if i == p {
                        assert(last_with_key(rs2, n as int));
                    } else {
                        assert(is_last_of_its_key(rs, c[i]));
                        let k = choose|k: int| #[trigger] last_with_key(rs, k) && c[i] == rs[k];
                        if i < p {
                            assert(lex_order()(keys_of(c)[i], keys_of(c)[p as int]));
                        } else {
                            assert(lex_order()(keys_of(c)[p as int], keys_of(c)[i]));
                        }
                        lemma_lex_order(keys_of(c)[i], keys_of(c)[p as int], rv.id);
                        assert(last_with_key(rs2, k));
                    }
                }
            }
        } else {
            let ghost old_keys = keys@;
            proof {
                assert forall|j: int| p <= j < old_keys.len() implies lex_lt(key@, #[trigger] old_keys[j]@) by {
                    assert(old_keys[j]@ == keys_of(c)[j]);
                    lemma_lex_order(key@, old_keys[p as int]@, old_keys[j]@);
                    if j > p {
                        assert(lex_order()(keys_of(c)[p as int], keys_of(c)[j]));
                    }
                }
            }
            keys.insert(p, key);
            entries.insert(p, e);
            proof {
                let c2 = views(entries@);
                assert(c2 =~= c.insert(p as int, rv));
                let k2 = keys_of(c2);
                assert(k2 =~= keys_of(c).insert(p as int, key_of(rv)));
                assert(strings_view(keys@) =~= k2);
                assert forall|i: int, j: int| 0 <= i < j < k2.len() implies #[trigger] lex_order()(k2[i], k2[j]) by {
                    if j < p {
                        assert(lex_order()(keys_of(c)[i], keys_of(c)[j]));
                    } else if j == p {
                        assert(lex_lt(old_keys[i]@, key@));
                    } else if i == p {
                        assert(lex_lt(key@, old_keys[j - 1]@));
                    } else if i < p {
                        assert(lex_order()(keys_of(c)[i], keys_of(c)[j - 1]));
                    } else {
                        assert(lex_order()(keys_of(c)[i - 1], keys_of(c)[j - 1]));
                    }
                }
                assert forall|k: int| 0 <= k < rs2.len() implies #[trigger] k2.contains(key_of(rs2[k])) by {
                    if k < rs.len() {
                        assert(keys_of(c).contains(key_of(rs[k])));
                        let j = choose|j: int| 0 <= j < keys_of(c).len() && keys_of(c)[j] == key_of(rs[k]);
                        if j < p {
                            assert(k2[j] == key_of(rs2[k]));
                        } else {
                            assert(k2[j + 1] == key_of(rs2[k]));
                        }
                    } else {
                        assert(k2[p as int] == key_of(rs2[k]));
                    }
                }
                assert forall|i: int| 0 <= i < c2.len() implies is_last_of_its_key(rs2, #[trigger] c2[i]) by {
                    if i == p {
                        assert(last_with_key(rs2, n as int));
                    } else {
                        let oi = if i < p { i } else { i - 1 };
                        assert(c2[i] == c[oi]);
                        assert(is_last_of_its_key(rs, c[oi]));
                        let k = choose|k: int| #[trigger] last_with_key(rs, k) && c[oi] == rs[k];
                        if oi < p {
                            assert(lex_lt(old_keys[oi]@, key@));
                        } else {
                            assert(lex_lt(key@, old_keys[oi]@));
                        }
                        lemma_lex_order(key@, old_keys[oi]@, key@);
                        assert(strings_view(old_keys)[oi] == old_keys[oi]@);
                        assert(key_of(c[oi]) == keys_of(c)[oi]);
                        assert(key_of(rs2[n as int]) != key_of(rs[k]));
                        assert(last_with_key(rs2, k));
                    }
                }
            }
        }
        n = n + 1;
    }
    assert(records@.subrange(0, n as int) =~= records@);
    (keys, entries)
}

} // verus!
