//! The application service: owns the catalog and answers lookups on it.
use vstd::prelude::*;

use indexmap::IndexMap;

use crate::catalog::{
    is_catalog_of, is_last_of_its_key, key_of, keys_of, last_with_key, lemma_catalog_unique,
    lemma_views_push, lex_order, sorted_unique, views,
};
use crate::entry::{normalize, normalized, Descriptor, DescriptorView, DesktopEntry, EntryView};
use crate::exec::{argv_view, expand, expand_outcome, file_text, LaunchError};
use crate::index::{
    index_entries, index_get, index_insert, index_len, index_new, index_value_at,
};
use crate::rank::{
    fuzzy_score, is_ranking, lemma_ranking_filters, lemma_ranking_unique, matches_at, page,
    ranked_records, ranking, ranks_before, score_at, skim_score,
};
use crate::sorted::strictly_sorted;
use crate::text::{compare_str, lemma_lex_order, lex_lt, lower_of, lowercase};

verus! {

/// The records that a list of descriptors normalises to, in the same order.
pub open spec fn normalized_all(ds: Seq<DescriptorView>) -> Seq<EntryView> {
    ds.map_values(|d: DescriptorView| normalized(d))
}

/// The views of a sequence of descriptors.
pub open spec fn descriptor_views(ds: Seq<Descriptor>) -> Seq<DescriptorView> {
    ds.map_values(|d: Descriptor| d@)
}

/// What launching a record gives: its expanded command, or why there is none.
pub open spec fn launch_outcome(e: EntryView, file: Seq<char>) -> Result<Seq<Seq<char>>, LaunchError> {
    match e.exec_template {
        None => Err(LaunchError::NoExec),
        Some(t) => expand_outcome(t, file),
    }
}

/// Where a page that starts at `offset` and holds at most `limit` of `len`
/// items ends.
spec fn k_end(offset: usize, len: usize, limit: usize) -> int {
    if offset + limit >= len { len as int } else { offset + limit }
}

/// The catalog positions held in a list of scored positions.
pub open spec fn positions_of(s: Seq<(i64, usize)>) -> Seq<int> {
    s.map_values(|p: (i64, usize)| p.1 as int)
}

/// `i` is the first position of `cat` whose record has exactly the name `name`.
pub open spec fn first_exact_name(cat: Seq<EntryView>, name: Seq<char>, i: int) -> bool {
    &&& 0 <= i < cat.len()
    &&& cat[i].name == name
    &&& forall|j: int| 0 <= j < i ==> #[trigger] cat[j].name != name
}

/// `i` is the first position of `cat` whose record's name equals `name` once
/// both are case-folded.
pub open spec fn first_folded_name(cat: Seq<EntryView>, name: Seq<char>, i: int) -> bool {
    &&& 0 <= i < cat.len()
    &&& lower_of(cat[i].name) == lower_of(name)
    &&& forall|j: int| 0 <= j < i ==> lower_of(#[trigger] cat[j].name) != lower_of(name)
}

/// The catalog of installed applications, built for a locale preference
/// list; lookups, search and launch resolution read it.
pub struct ApplicationService {
    locales: Vec<String>,
    entries: IndexMap<String, DesktopEntry>,
}

impl ApplicationService {
    /// The locale preference list the service was built for.
    pub closed spec fn locale_list(&self) -> Seq<String> {
        self.locales@
    }

    /// The catalog, in its order.
    pub closed spec fn catalog(&self) -> Seq<EntryView> {
        index_entries(self.entries).map_values(|p: (Seq<char>, DesktopEntry)| p.1@)
    }

    /// Each record is stored under its case-folded id, the keys ascend
    /// strictly, and each record's folded name is that of its name.
    #[verifier::type_invariant]
    closed spec fn well_formed(&self) -> bool {
        &&& forall|i: int|
            0 <= i < index_entries(self.entries).len() ==> #[trigger] index_entries(self.entries)[i].0
                == key_of(index_entries(self.entries)[i].1@)
        &&& strictly_sorted(keys_of(self.catalog()), lex_order())
        &&& forall|i: int|
            0 <= i < self.catalog().len() ==> #[trigger] self.catalog()[i].lower_name == lower_of(
                self.catalog()[i].name,
            )
    }

    /// The locale preference list the service was built for.
    pub fn locales(&self) -> (r: &Vec<String>)
        ensures
            r@ == self.locale_list(),
    {
        &self.locales
    }

    /// Normalises the descriptors and builds the catalog from them.
    fn build(descriptors: &Vec<Descriptor>) -> (r: IndexMap<String, DesktopEntry>)
        ensures
            is_catalog_of(
                normalized_all(descriptor_views(descriptors@)),
                index_entries(r).map_values(|p: (Seq<char>, DesktopEntry)| p.1@),
            ),
            forall|i: int|
                0 <= i < index_entries(r).len() ==> #[trigger] index_entries(r)[i].0 == key_of(
                    index_entries(r)[i].1@,
                ),
    {
        let mut records: Vec<DesktopEntry> = Vec::new();
        let mut i: usize = 0;
        while i < descriptors.len()
            invariant
                i <= descriptors.len(),
                views(records@) == normalized_all(descriptor_views(descriptors@.subrange(0, i as int))),
            decreases descriptors.len() - i,
        {
            let e = normalize(&descriptors[i]);
            proof {
                lemma_views_push(records@, e);
                let pre = descriptors@.subrange(0, i as int);
                assert(descriptors@.subrange(0, i + 1) =~= pre.push(descriptors@[i as int]));
                assert(normalized_all(descriptor_views(pre.push(descriptors@[i as int]))) =~= normalized_all(
                    descriptor_views(pre),
                ).push(normalized(descriptors@[i as int]@)));
            }
            records.push(e);
            i = i + 1;
        }
        assert(descriptors@.subrange(0, i as int) =~= descriptors@);
        let (keys, sorted) = sorted_unique(&records);
        let ghost cat = views(sorted@);
        let mut m = index_new();
        let mut j: usize = 0;
        assert(keys_of(cat).len() == cat.len());
        while j < sorted.len()
            invariant
                j <= sorted.len(),
                keys.len() == sorted.len(),
                cat == views(sorted@),
                crate::entry::strings_view(keys@) == keys_of(cat),
                strictly_sorted(keys_of(cat), lex_order()),
                index_entries(m).len() == j,
                forall|k: int| 0 <= k < j ==> #[trigger] index_entries(m)[k].0 == keys_of(cat)[k],
                forall|k: int| 0 <= k < j ==> #[trigger] index_entries(m)[k].1@ == cat[k],
            decreases sorted.len() - j,
        {
            assert(crate::entry::strings_view(keys@)[j as int] == keys@[j as int]@);
            assert forall|k: int| 0 <= k < index_entries(m).len() implies #[trigger] index_entries(m)[k].0 != keys@[j as int]@ by {
                assert(lex_order()(keys_of(cat)[k], keys_of(cat)[j as int]));
                lemma_lex_order(keys_of(cat)[k], keys_of(cat)[j as int], keys_of(cat)[k]);
            }
            index_insert(&mut m, keys[j].clone(), sorted[j].duplicate());
            j = j + 1;
        }
        assert(index_entries(m).map_values(|p: (Seq<char>, DesktopEntry)| p.1@) =~= cat);
        m
    }

    /// Builds the service for the given locale preference list from the
    /// given descriptors.
    pub fn new(locales: Vec<String>, descriptors: &Vec<Descriptor>) -> (r: Self)
        ensures
            r.locale_list() == locales@,
            is_catalog_of(normalized_all(descriptor_views(descriptors@)), r.catalog()),
            forall|i: int, j: int|
                0 <= i < j < r.catalog().len() ==> lex_lt(
                    lower_of(r.catalog()[i].id),
                    lower_of(r.catalog()[j].id),
                ),
    {
        let entries = Self::build(descriptors);
        let r = ApplicationService { locales, entries };
        proof {
            Self::lemma_ordered(r);
        }
        r
    }

    proof fn lemma_ordered(s: Self)
        requires
            strictly_sorted(keys_of(s.catalog()), lex_order()),
        ensures
            forall|i: int, j: int|
                0 <= i < j < s.catalog().len() ==> lex_lt(
                    lower_of(s.catalog()[i].id),
                    lower_of(s.catalog()[j].id),
                ),
    {
        assert forall|i: int, j: int| 0 <= i < j < s.catalog().len() implies lex_lt(
            lower_of(s.catalog()[i].id),
            lower_of(s.catalog()[j].id),
        ) by {
            assert(lex_order()(keys_of(s.catalog())[i], keys_of(s.catalog())[j]));
        }
    }

    /// Discards the catalog and rebuilds it from the given descriptors.
    pub fn refresh(&mut self, descriptors: &Vec<Descriptor>)
        ensures
            final(self).locale_list() == old(self).locale_list(),
            is_catalog_of(normalized_all(descriptor_views(descriptors@)), final(self).catalog()),
            forall|i: int, j: int|
                0 <= i < j < final(self).catalog().len() ==> lex_lt(
                    lower_of(final(self).catalog()[i].id),
                    lower_of(final(self).catalog()[j].id),
                ),
    {
        self.entries = Self::build(descriptors);
        proof {
            Self::lemma_ordered(*self);
        }
    }

    /// The record whose id is exactly `id`, if the catalog holds one.
    pub fn get(&self, id: &str) -> (r: Option<&DesktopEntry>)
        ensures
            r is None <==> forall|i: int| 0 <= i < self.catalog().len() ==> #[trigger] self.catalog()[i].id != id@,
            r is Some ==> exists|i: int|
                0 <= i < self.catalog().len() && #[trigger] self.catalog()[i].id == id@ && r->Some_0@
                    == self.catalog()[i],
    {
        proof {
            use_type_invariant(self);
        }
        let key = lowercase(id);
        match index_get(&self.entries, key.as_str()) {
            Some(e) => {
                let ghost es = index_entries(self.entries);
                let ghost k = choose|k: int| 0 <= k < es.len() && #[trigger] es[k].0 == key@ && es[k].1 == *e;
                assert(self.catalog()[k] == es[k].1@);
                if compare_str(e.id.as_str(), id) == 0 {
                    Some(e)
                } else {
                    proof {
                        assert forall|i: int| 0 <= i < self.catalog().len() implies #[trigger] self.catalog()[i].id != id@ by {
                            if self.catalog()[i].id == id@ {
                                assert(self.catalog()[i] == es[i].1@);
                                assert(es[i].0 == key@);
                                if i != k {
                                    let (a, b) = if i < k { (i, k) } else { (k, i) };
                                    assert(lex_order()(keys_of(self.catalog())[a], keys_of(self.catalog())[b]));
                                    lemma_lex_order(key@, key@, key@);
                                }
                            }
                        }
                    }
                    None
                }
            },
            None => {
                proof {
                    let es = index_entries(self.entries);
                    assert forall|i: int| 0 <= i < self.catalog().len() implies #[trigger] self.catalog()[i].id != id@ by {
                        assert(es[i].0 != key@);
                        assert(self.catalog()[i] == es[i].1@);
                    }
                }
                None
            },
        }
    }

    /// The record found by display name: the first one in catalog order whose
    /// name is exactly `name`, or else the first whose name equals it once
    /// both are case-folded, or nothing.
    pub fn get_by_name(&self, name: &str) -> (r: Option<&DesktopEntry>)
        ensures
            (exists|i: int| first_exact_name(self.catalog(), name@, i)) ==> exists|i: int|
                #[trigger] first_exact_name(self.catalog(), name@, i) && r is Some && r->Some_0@
                    == self.catalog()[i],
            (forall|i: int| !#[trigger] first_exact_name(self.catalog(), name@, i)) ==> ((exists|i: int|
                first_folded_name(self.catalog(), name@, i)) ==> exists|i: int|
                #[trigger] first_folded_name(self.catalog(), name@, i) && r is Some && r->Some_0@
                    == self.catalog()[i]),
            (forall|i: int| !#[trigger] first_exact_name(self.catalog(), name@, i)) && (forall|i: int|
                !#[trigger] first_folded_name(self.catalog(), name@, i)) ==> r is None,
    {
        proof {
            use_type_invariant(self);
        }
        let n = index_len(&self.entries);
        let mut i: usize = 0;
        while i < n
            invariant
                i <= n,
                n == self.catalog().len(),
                forall|j: int| 0 <= j < i ==> #[trigger] self.catalog()[j].name != name@,
            decreases n - i,
        {
            let e = index_value_at(&self.entries, i).unwrap();
            assert(e@ == self.catalog()[i as int]);
            if compare_str(e.name.as_str(), name) == 0 {
                assert(first_exact_name(self.catalog(), name@, i as int));
                return Some(e);
            }
            i = i + 1;
        }
        assert forall|k: int| !#[trigger] first_exact_name(self.catalog(), name@, k) by {}
        let lower = lowercase(name);
        let mut i: usize = 0;
        while i < n
            invariant
                i <= n,
                n == self.catalog().len(),
                lower@ == lower_of(name@),
                forall|k: int| !#[trigger] first_exact_name(self.catalog(), name@, k),
                forall|j: int| 0 <= j < n ==> #[trigger] self.catalog()[j].lower_name == lower_of(self.catalog()[j].name),
                forall|j: int| 0 <= j < i ==> lower_of(#[trigger] self.catalog()[j].name) != lower_of(name@),
            decreases n - i,
        {
            let e = index_value_at(&self.entries, i).unwrap();
            assert(e@ == self.catalog()[i as int]);
            assert(self.catalog()[i as int].lower_name == lower_of(self.catalog()[i as int].name));
            if compare_str(e.lower_name.as_str(), lower.as_str()) == 0 {
                assert(first_folded_name(self.catalog(), name@, i as int));
                return Some(e);
            }
            i = i + 1;
        }
        assert forall|k: int| !#[trigger] first_folded_name(self.catalog(), name@, k) by {}
        None
    }

    /// Positions of the records that match `q`, in ranking order.
    fn ranked_positions(&self, q: &str) -> (r: Vec<usize>)
        ensures
            is_ranking(self.catalog(), q@, r@.map_values(|i: usize| i as int)),
            forall|k: int| 0 <= k < r.len() ==> #[trigger] r@[k] < self.catalog().len(),
    {
        let ghost cat = self.catalog();
        let n = index_len(&self.entries);
        let mut scored: Vec<(i64, usize)> = Vec::new();
        let mut i: usize = 0;
        while i < n
            invariant
                i <= n,
                n == cat.len(),
                cat == self.catalog(),
                strictly_sorted(positions_of(scored@), ranks_before(cat, q@)),
                forall|k: int|
                    0 <= k < scored.len() ==> #[trigger] scored@[k].1 < i && matches_at(cat, q@, scored@[k].1 as int)
                        && scored@[k].0 as int == score_at(cat, q@, scored@[k].1 as int),
                forall|j: int|
                    #[trigger] positions_of(scored@).contains(j) <==> (j < i
                        && matches_at(cat, q@, j)),
            decreases n - i,
        {
            let e = index_value_at(&self.entries, i).unwrap();
            assert(e@ == cat[i as int]);
            match fuzzy_score(e.name.as_str(), q) {
                Some(s) => {
                    let mut p: usize = 0;
                    while p < scored.len() && scored[p].0 >= s
                        invariant
                            p <= scored.len(),
                            forall|k: int| 0 <= k < p ==> #[trigger] scored@[k].0 >= s,
                        decreases scored.len() - p,
                    {
                        p = p + 1;
                    }
                    let ghost old_scored = scored@;
                    let ghost old_r = positions_of(old_scored);
                    scored.insert(p, (s, i));
                    proof {
                        let r2 = positions_of(scored@);
                        assert(r2 =~= old_r.insert(p as int, i as int));
                        assert forall|a: int, b: int| 0 <= a < b < r2.len() implies #[trigger] ranks_before(cat, q@)(r2[a], r2[b]) by {
                            if b < p {
                                assert(ranks_before(cat, q@)(old_r[a], old_r[b]));
                            } else if b == p {
                                assert(old_scored[a].0 >= s);
                            } else if a == p {
                                assert(ranks_before(cat, q@)(old_r[p as int], old_r[b - 1]) || b - 1 == p);
                            } else if a < p {
                                assert(ranks_before(cat, q@)(old_r[a], old_r[b - 1]));
                            } else {
                                assert(ranks_before(cat, q@)(old_r[a - 1], old_r[b - 1]));
                            }
                        }
                        assert forall|j: int| #[trigger] r2.contains(j) <==> (j < i + 1 && matches_at(cat, q@, j)) by {
                            if r2.contains(j) {
                                let k = choose|k: int| 0 <= k < r2.len() && r2[k] == j;
                                if k < p {
                                    assert(old_r.contains(j) && old_r[k] == j);
                                } else if k > p {
                                    assert(old_r.contains(j) && old_r[k - 1] == j);
                                }
                            }
                            if j < i + 1 && matches_at(cat, q@, j) {
                                if j < i {
                                    assert(old_r.contains(j));
                                    let k = choose|k: int| 0 <= k < old_r.len() && old_r[k] == j;
                                    if k < p {
                                        assert(r2[k] == j);
                                    } else {
                                        assert(r2[k + 1] == j);
                                    }
                                } else {
                                    assert(r2[p as int] == j);
                                }
                            }
                        }
                    }
                },
                None => {
                    proof {
                        let r1 = positions_of(scored@);
                        assert forall|j: int| #[trigger] r1.contains(j) <==> (j < i + 1 && matches_at(cat, q@, j)) by {
                            if j == i {
                                if r1.contains(j) {
                                    let k = choose|k: int| 0 <= k < r1.len() && r1[k] == j;
                                    assert(scored@[k].1 < i);
                                }
                            }
                        }
                    }
                },
            }
            i = i + 1;
        }
        let mut r: Vec<usize> = Vec::new();
        let mut k: usize = 0;
        while k < scored.len()
            invariant
                k <= scored.len(),
                r@ == scored@.subrange(0, k as int).map_values(|p: (i64, usize)| p.1),
                forall|j: int| 0 <= j < scored.len() ==> #[trigger] scored@[j].1 < n,
            decreases scored.len() - k,
        {
            r.push(scored[k].1);
            assert(scored@.subrange(0, k + 1).map_values(|p: (i64, usize)| p.1) =~= scored@.subrange(
                0,
                k as int,
            ).map_values(|p: (i64, usize)| p.1).push(scored@[k as int].1));
            k = k + 1;
        }
        assert(r@.map_values(|i: usize| i as int) =~= positions_of(scored@));
        r
    }

    /// The records in catalog order, or, for a non-empty query, the matching
    /// records in ranking order; of these, `offset` are skipped and at most
    /// `limit` are returned.
    pub fn search(&self, query: Option<&str>, offset: usize, limit: usize) -> (r: Vec<DesktopEntry>)
        ensures
            query is None || query->Some_0@.len() == 0 ==> views(r@) == page(
                self.catalog(),
                offset as int,
                limit as int,
            ),
            query is Some && query->Some_0@.len() > 0 ==> is_ranking(
                self.catalog(),
                query->Some_0@,
                ranking(self.catalog(), query->Some_0@),
            ),
            query is Some && query->Some_0@.len() > 0 ==> views(r@) == page(
                ranked_records(self.catalog(), ranking(self.catalog(), query->Some_0@)),
                offset as int,
                limit as int,
            ),
            query is Some && query->Some_0@.len() > 0 ==> forall|k: int|
                0 <= k < r@.len() ==> skim_score(#[trigger] r@[k].name@, query->Some_0@) is Some,
    {
        let ghost cat = self.catalog();
        let n = index_len(&self.entries);
        let ranked = match query {
            Some(q) => q.unicode_len() > 0,
            None => false,
        };
        if !ranked {
            let end = if offset >= n {
                offset
            } else if limit >= n - offset {
                n
            } else {
                offset + limit
            };
            let mut r: Vec<DesktopEntry> = Vec::new();
            let mut k: usize = offset;
            while k < end
                invariant
                    offset <= k,
                    k <= end || offset >= n,
                    end <= n || offset >= n,
                    n == cat.len(),
                    cat == self.catalog(),
                    offset < n ==> views(r@) == cat.subrange(offset as int, k as int),
                    offset >= n ==> r@.len() == 0,
                    end == (if offset >= n { offset as int } else if offset + limit >= n { n as int } else { offset + limit }),
                decreases end - k,
            {
                let e = index_value_at(&self.entries, k).unwrap();
                let d = e.duplicate();
                proof {
                    lemma_views_push(r@, d);
                    assert(cat.subrange(offset as int, k + 1) =~= cat.subrange(offset as int, k as int).push(cat[k as int]));
                }
                r.push(d);
                k = k + 1;
            }
            proof {
                if offset >= n {
                    assert(views(r@) =~= Seq::<EntryView>::empty());
                }
            }
            r
        } else {
            let q = query.unwrap();
            let pos = self.ranked_positions(q);
            let ghost rk = pos@.map_values(|i: usize| i as int);
            proof {
                assert(is_ranking(cat, q@, rk));
                lemma_ranking_unique(cat, q@, rk, ranking(cat, q@));
            }
            let ghost recs = ranked_records(cat, rk);
            let m = pos.len();
            let end = if offset >= m {
                offset
            } else if limit >= m - offset {
                m
            } else {
                offset + limit
            };
            let mut r: Vec<DesktopEntry> = Vec::new();
            let mut k: usize = offset;
            while k < end
                invariant
                    offset <= k,
                    k <= end || offset >= m,
                    end <= m || offset >= m,
                    m == pos.len(),
                    n == cat.len(),
                    cat == self.catalog(),
                    recs == ranked_records(cat, pos@.map_values(|i: usize| i as int)),
                    forall|j: int| 0 <= j < m ==> #[trigger] pos@[j] < n,
                    offset < m ==> views(r@) == recs.subrange(offset as int, k as int),
                    offset >= m ==> r@.len() == 0,
                    end == (if offset >= m { offset as int } else if offset + limit >= m { m as int } else { offset + limit }),
                decreases end - k,
            {
                let e = index_value_at(&self.entries, pos[k]).unwrap();
                let d = e.duplicate();
                proof {
                    lemma_views_push(r@, d);
                    assert(recs[k as int] == cat[pos@[k as int] as int]);
                    assert(recs.subrange(offset as int, k + 1) =~= recs.subrange(offset as int, k as int).push(recs[k as int]));
                }
                r.push(d);
                k = k + 1;
            }
            proof {
                if offset >= m {
                    assert(views(r@) =~= Seq::<EntryView>::empty());
                }
                lemma_ranking_filters(cat, q@, rk);
                assert forall|k: int| 0 <= k < r@.len() implies skim_score(#[trigger] r@[k].name@, q@) is Some by {
                    assert(views(r@)[k] == r@[k]@);
                    assert(views(r@) == recs.subrange(offset as int, k_end(offset, m, limit)));
                    assert(recs.subrange(offset as int, k_end(offset, m, limit))[k] == recs[offset + k]);
                    assert(recs == ranked_records(cat, rk));
                    assert(skim_score(ranked_records(cat, rk)[offset + k].name, q@) is Some);
                }
            }
            r
        }
    }

    /// The argument vector that launching the record `id` runs, with `file`
    /// for the file field codes: program first, then its arguments.
    pub fn resolve_launch(&self, id: &str, file: Option<&str>) -> (r: Result<Vec<String>, LaunchError>)
        ensures
            (forall|i: int| 0 <= i < self.catalog().len() ==> #[trigger] self.catalog()[i].id != id@) ==> r
                == Err::<Vec<String>, LaunchError>(LaunchError::NotFound),
            (exists|i: int| 0 <= i < self.catalog().len() && #[trigger] self.catalog()[i].id == id@)
                ==> exists|i: int|
                0 <= i < self.catalog().len() && #[trigger] self.catalog()[i].id == id@ && argv_view(r)
                    == launch_outcome(self.catalog()[i], file_text(file)),
    {
        match self.get(id) {
            None => Err(LaunchError::NotFound),
            Some(e) => match &e.exec_template {
                None => Err(LaunchError::NoExec),
                Some(t) => expand(t.as_str(), file),
            },
        }
    }
}

/// Refreshing is idempotent: two catalogs built from the same descriptors,
/// as `new` and `refresh` build them, are equal record for record.
pub proof fn lemma_refresh_idempotent(ds: Seq<DescriptorView>, c1: Seq<EntryView>, c2: Seq<EntryView>)
    requires
        is_catalog_of(normalized_all(ds), c1),
        is_catalog_of(normalized_all(ds), c2),
    ensures
        c1 == c2,
{
    lemma_catalog_unique(normalized_all(ds), c1, c2);
}

/// Two descriptors whose ids differ only by case give a catalog of exactly
/// one record: the one built from the later descriptor.
pub proof fn lemma_case_duplicates(a: DescriptorView, b: DescriptorView, c: Seq<EntryView>)
    requires
        lower_of(a.id) == lower_of(b.id),
        is_catalog_of(normalized_all(seq![a, b]), c),
    ensures
        c == seq![normalized(b)],
{
    let rs = normalized_all(seq![a, b]);
    assert(rs[0] == normalized(a));
    assert(rs[1] == normalized(b));
    assert(keys_of(c).contains(key_of(rs[0])));
    assert forall|i: int| 0 <= i < c.len() implies c[i] == normalized(b) by {
        assert(is_last_of_its_key(rs, c[i]));
        let k = choose|k: int| #[trigger] last_with_key(rs, k) && c[i] == rs[k];
        if k == 0 {
            assert(key_of(rs[1]) != key_of(rs[0]));
        }
    }
    if c.len() >= 2 {
        assert(lex_order()(keys_of(c)[0], keys_of(c)[1]));
        lemma_lex_order(key_of(c[0]), key_of(c[0]), key_of(c[0]));
    }
    assert(c =~= seq![normalized(b)]);
}

} // verus!
