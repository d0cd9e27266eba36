//! Linking series to the catalog without a network: a table from normalized
//! titles to catalog ids, with a fuzzy fallback.

use vstd::prelude::*;
use vstd::hash_map::StringHashMap;
use crate::matching::{match_score, normalize_title, normalized, score, texts, FUZZY_LINK_THRESHOLD};
use crate::text::{chars_of, same_chars, spellings, split_words, words, WordKind};

verus! {

/// One catalog row reduced to what linking needs.
pub struct CatalogTitleRow {
    pub id: i64,
    /// The display title and its variants. All are indexed, so that a series
    /// matches whichever spelling it uses.
    pub titles: Vec<String>,
    /// Decides between rows whose titles normalize to the same text; a missing
    /// popularity reads as 0.
    pub popularity: i64,
}

/// An indexed title: its normalized form and the row that carries it.
pub struct TitleEntry {
    pub norm: Seq<char>,
    pub id: i64,
    pub popularity: i64,
}

/// The entries of one row's titles, less those that normalize to nothing.
pub open spec fn title_entries(titles: Seq<String>, id: i64, popularity: i64) -> Seq<TitleEntry>
    decreases titles.len(),
{
    if titles.len() == 0 {
        Seq::empty()
    } else {
        let before = title_entries(titles.drop_last(), id, popularity);
        let norm = normalized(titles.last()@);
        if norm.len() == 0 {
            before
        } else {
            before.push(TitleEntry { norm, id, popularity })
        }
    }
}

/// The entries of all rows, in order.
pub open spec fn row_entries(rows: Seq<CatalogTitleRow>) -> Seq<TitleEntry>
    decreases rows.len(),
{
    if rows.len() == 0 {
        Seq::empty()
    } else {
        row_entries(rows.drop_last()) + title_entries(
            rows.last().titles@,
            rows.last().id,
            rows.last().popularity,
        )
    }
}

/// Whether row `(id, popularity)` wins over row `other`: the more popular row
/// does, and of two equally popular ones that with the lower id.
pub open spec fn wins(id: i64, popularity: i64, other: (i64, i64)) -> bool {
    popularity > other.1 || (popularity == other.1 && id < other.0)
}

/// The row that a normalized title stands for, with its popularity.
pub open spec fn preferred(entries: Seq<TitleEntry>, key: Seq<char>) -> Option<(i64, i64)>
    decreases entries.len(),
{
    if entries.len() == 0 {
        None
    } else {
        let before = preferred(entries.drop_last(), key);
        let e = entries.last();
        if e.norm != key {
            before
        } else {
            match before {
                None => Some((e.id, e.popularity)),
                Some(b) => if wins(e.id, e.popularity, b) {
                    Some((e.id, e.popularity))
                } else {
                    before
                },
            }
        }
    }
}

/// The first of the titles that names a row exactly, and that row's id.
pub open spec fn first_exact(entries: Seq<TitleEntry>, candidates: Seq<Seq<char>>) -> Option<i64>
    decreases candidates.len(),
{
    if candidates.len() == 0 {
        None
    } else {
        match preferred(entries, normalized(candidates[0])) {
            Some(row) => Some(row.0),
            None => first_exact(entries, candidates.drop_first()),
        }
    }
}

/// Whether two normalized titles have a word of at least four characters in
/// common. Shorter words are mostly particles that occur everywhere.
pub open spec fn share_long_word(a: Seq<char>, b: Seq<char>) -> bool {
    exists|i: int, j: int|
        #![trigger words(a, WordKind::Visible)[i], words(b, WordKind::Visible)[j]]
        0 <= i < words(a, WordKind::Visible).len() && 0 <= j < words(b, WordKind::Visible).len()
            && words(a, WordKind::Visible)[i] == words(b, WordKind::Visible)[j] && words(
            a,
            WordKind::Visible,
        )[i].len() >= 4
}

/// Whether an indexed title may be linked to a query: they share a long word
/// and their score reaches [`FUZZY_LINK_THRESHOLD`].
pub open spec fn linkable(query: Seq<char>, e: TitleEntry) -> bool {
    share_long_word(normalized(query), e.norm) && match_score(normalized(query), e.norm)
        >= FUZZY_LINK_THRESHOLD
}

/// Whether the second link is at least as good as the first: by score, then by
/// popularity.
pub open spec fn no_better(s1: nat, p1: i64, s2: nat, p2: i64) -> bool {
    s1 < s2 || (s1 == s2 && p1 <= p2)
}

/// Whether indexed title `e` is a best link for the queries, found by query `q`.
pub open spec fn best_link(queries: Seq<&str>, entries: Seq<TitleEntry>, q: int, e: int) -> bool {
    &&& linkable(queries[q]@, entries[e])
    &&& forall|q2: int, e2: int|
        0 <= q2 < queries.len() && 0 <= e2 < entries.len() && #[trigger] linkable(
            queries[q2]@,
            entries[e2],
        ) ==> no_better(
            match_score(normalized(queries[q2]@), entries[e2].norm),
            entries[e2].popularity,
            match_score(normalized(queries[q]@), entries[e].norm),
            entries[e].popularity,
        )
}

/// What is known of the best link once all pairs before query `q`, title `e`
/// Whether titles are linked to the entry of the best link, or to none where there
/// is no link.
pub open spec fn fuzzily_linked(
    r: Option<i64>,
    queries: Seq<&str>,
    entries: Seq<TitleEntry>,
) -> bool {
    &&& r is None <==> forall|q: int, e: int|
        0 <= q < queries.len() && 0 <= e < entries.len() ==> !#[trigger] linkable(
            queries[q]@,
            entries[e],
        )
    &&& r matches Some(id) ==> exists|q: int, e: int|
        0 <= q < queries.len() && 0 <= e < entries.len() && entries[e].id == id
            && #[trigger] best_link(queries, entries, q, e)
}

/// have been tried.
spec fn best_so_far(
    best: Option<(u64, i64, i64)>,
    queries: Seq<&str>,
    entries: Seq<TitleEntry>,
    bq: int,
    be: int,
    q: int,
    e: int,
) -> bool {
    match best {
        None => forall|q2: int, e2: int|
            (0 <= q2 < q && 0 <= e2 < entries.len()) || (q2 == q && 0 <= e2 < e)
                ==> !#[trigger] linkable(queries[q2]@, entries[e2]),
        Some(b) => {
            &&& 0 <= bq < queries.len()
            &&& 0 <= be < entries.len()
            &&& linkable(queries[bq]@, entries[be])
            &&& b.0 == match_score(normalized(queries[bq]@), entries[be].norm)
            &&& b.1 == entries[be].popularity
            &&& b.2 == entries[be].id
            &&& forall|q2: int, e2: int|
                ((0 <= q2 < q && 0 <= e2 < entries.len()) || (q2 == q && 0 <= e2 < e))
                    && #[trigger] linkable(queries[q2]@, entries[e2]) ==> no_better(
                    match_score(normalized(queries[q2]@), entries[e2].norm),
                    entries[e2].popularity,
                    b.0 as nat,
                    b.1,
                )
        },
    }
}

/// Whether two word lists share a word of at least four characters.
fn have_long_word(a: &Vec<Vec<char>>, b: &Vec<Vec<char>>) -> (r: bool)
    ensures
        r == exists|i: int, j: int|
            0 <= i < spellings(a@).len() && 0 <= j < spellings(b@).len() && #[trigger] spellings(
                a@,
            )[i] == #[trigger] spellings(b@)[j] && spellings(a@)[i].len() >= 4,
{
    let mut i: usize = 0;
    while i < a.len()
        invariant
            i <= a@.len(),
            forall|k: int, j: int|
                0 <= k < i && 0 <= j < spellings(b@).len() && #[trigger] spellings(a@)[k]
                    == #[trigger] spellings(b@)[j] ==> spellings(a@)[k].len() < 4,
        decreases a@.len() - i,
    {
        if a[i].len() >= 4 {
            let mut j: usize = 0;
            while j < b.len()
                invariant
                    i < a@.len(),
                    a@[i as int]@.len() >= 4,
                    j <= b@.len(),
                    forall|k: int| 0 <= k < j ==> spellings(a@)[i as int] != spellings(b@)[k],
                decreases b@.len() - j,
            {
                if same_chars(&a[i], &b[j]) {
                    assert(spellings(a@)[i as int] == spellings(b@)[j as int]);
                    return true;
                }
                j += 1;
            }
        }
        i += 1;
    }
    false
}

/// The preferred row of a title is one that carries it, and no other row that
/// carries it wins over it.
pub proof fn law_preferred_wins(entries: Seq<TitleEntry>, key: Seq<char>)
    ensures
        preferred(entries, key) is None <==> forall|i: int|
            0 <= i < entries.len() ==> (#[trigger] entries[i]).norm != key,
        preferred(entries, key) matches Some(row) ==> {
            &&& exists|i: int|
                0 <= i < entries.len() && (#[trigger] entries[i]).norm == key && row == (
                    entries[i].id,
                    entries[i].popularity,
                )
            &&& forall|i: int|
                0 <= i < entries.len() && (#[trigger] entries[i]).norm == key ==> !wins(
                    entries[i].id,
                    entries[i].popularity,
                    row,
                )
        },
    decreases entries.len(),
{
    if entries.len() > 0 {
        let init = entries.drop_last();
        law_preferred_wins(init, key);
        if let Some(row) = preferred(init, key) {
            let i = choose|i: int|
                0 <= i < init.len() && (#[trigger] init[i]).norm == key && row == (
                    init[i].id,
                    init[i].popularity,
                );
            assert(entries[i] == init[i]);
        }
        assert(entries.last() == entries[entries.len() - 1]);
        assert forall|i: int| 0 <= i < entries.len() - 1 implies #[trigger] entries[i] == init[i] by {}
        if preferred(init, key) is None && entries.last().norm != key {
            assert forall|i: int| 0 <= i < entries.len() implies (#[trigger] entries[i]).norm
                != key by {
                if i < init.len() {
                    assert(init[i].norm != key);
                }
            }
        }
        if preferred(entries, key) is Some {
            let row = preferred(entries, key)->0;
            assert forall|i: int|
                0 <= i < entries.len() && (#[trigger] entries[i]).norm == key implies !wins(
                entries[i].id,
                entries[i].popularity,
                row,
            ) by {
                if i < init.len() {
                    assert(init[i].norm == key);
                }
            }
        }
    }
}

/// Which row a title stands for does not depend on the order of the rows.
pub proof fn law_preferred_ignores_order(
    a: Seq<TitleEntry>,
    b: Seq<TitleEntry>,
    key: Seq<char>,
)
    requires
        a.to_set() == b.to_set(),
    ensures
        preferred(a, key) == preferred(b, key),
{
    law_preferred_wins(a, key);
    law_preferred_wins(b, key);
    assert forall|i: int| 0 <= i < a.len() implies b.contains(#[trigger] a[i]) by {
        assert(a.to_set().contains(a[i]));
        assert(b.to_set().contains(a[i]));
    }
    assert forall|i: int| 0 <= i < b.len() implies a.contains(#[trigger] b[i]) by {
        assert(b.to_set().contains(b[i]));
        assert(a.to_set().contains(b[i]));
    }
}

struct IndexedTitle {
    norm: String,
    words: Vec<Vec<char>>,
    id: i64,
    popularity: i64,
}

impl IndexedTitle {
    spec fn model(self) -> TitleEntry {
        TitleEntry { norm: self.norm@, id: self.id, popularity: self.popularity }
    }
}

spec fn models(titles: Seq<IndexedTitle>) -> Seq<TitleEntry> {
    titles.map_values(|t: IndexedTitle| t.model())
}

/// Whether the table gives a key the row that the titles prefer for it.
spec fn agrees(
    entries: Seq<TitleEntry>,
    exact: Map<Seq<char>, (i64, i64)>,
    key: Seq<char>,
) -> bool {
    match preferred(entries, key) {
        Some(row) => exact.contains_key(key) && exact[key] == row,
        None => !exact.contains_key(key),
    }
}

spec fn consistent(titles: Seq<IndexedTitle>, exact: Map<Seq<char>, (i64, i64)>) -> bool {
    &&& forall|key: Seq<char>| #[trigger] agrees(models(titles), exact, key)
    &&& forall|i: int|
        0 <= i < titles.len() ==> spellings((#[trigger] titles[i]).words@) == words(
            titles[i].norm@,
            WordKind::Visible,
        )
}

/// Adds one title of a row, unless it normalizes to nothing.
fn index_title(
    titles: &mut Vec<IndexedTitle>,
    exact: &mut StringHashMap<(i64, i64)>,
    title: &String,
    id: i64,
    popularity: i64,
)
    requires
        consistent(old(titles)@, old(exact)@),
    ensures
        consistent(final(titles)@, final(exact)@),
        models(final(titles)@) == if normalized(title@).len() == 0 {
            models(old(titles)@)
        } else {
            models(old(titles)@).push((TitleEntry { norm: normalized(title@), id, popularity }))
        },
{
    let norm = normalize_title(title.as_str());
    let chars = chars_of(norm.as_str());
    if chars.len() == 0 {
        return;
    }
    let list = split_words(&chars, WordKind::Visible);
    let better = match exact.get(norm.as_str()) {
        Some(row) => popularity > row.1 || (popularity == row.1 && id < row.0),
        None => true,
    };
    let ghost before = models(titles@);
    let ghost known = exact@;
    let ghost entry = TitleEntry { norm: norm@, id, popularity };
    proof {
        assert(before.push(entry).drop_last() =~= before);
        assert(agrees(before, known, norm@));
    }
    if better {
        exact.insert(norm.clone(), (id, popularity));
    }
    titles.push(IndexedTitle { norm, words: list, id, popularity });
    assert(models(titles@) =~= before.push(entry));
    assert forall|key: Seq<char>| #[trigger] agrees(models(titles@), exact@, key) by {
        assert(agrees(before, known, key));
    }
    assert forall|i: int| 0 <= i < titles@.len() implies spellings((#[trigger] titles@[i]).words@)
        == words(titles@[i].norm@, WordKind::Visible) by {
        if i < old(titles)@.len() {
            assert(titles@[i] == old(titles)@[i]);
        }
    }
}

/// Normalized titles and the catalog rows that they stand for, built once for a
/// linking run.
pub struct CatalogIndex {
    titles: Vec<IndexedTitle>,
    exact: StringHashMap<(i64, i64)>,
}

impl CatalogIndex {
    /// The indexed titles, in the order of the rows.
    pub closed spec fn entries(self) -> Seq<TitleEntry> {
        models(self.titles@)
    }

    #[verifier::type_invariant]
    spec fn well_formed(self) -> bool {
        consistent(self.titles@, self.exact@)
    }

    /// Indexes every title of every row.
    pub fn build(rows: &[CatalogTitleRow]) -> (r: Self)
        ensures
            r.entries() == row_entries(rows@),
    {
        let mut titles: Vec<IndexedTitle> = Vec::new();
        let mut exact: StringHashMap<(i64, i64)> = StringHashMap::new();
        assert(models(titles@) =~= Seq::empty());
        assert(rows@.take(0) =~= Seq::empty());
        let mut i: usize = 0;
        while i < rows.len()
            invariant
                i <= rows@.len(),
                consistent(titles@, exact@),
                models(titles@) == row_entries(rows@.take(i as int)),
            decreases rows@.len() - i,
        {
            let row = &rows[i];
            let ghost before = row_entries(rows@.take(i as int));
            assert(row.titles@.take(0) =~= Seq::empty());
            assert(before =~= before + title_entries(
                row.titles@.take(0),
                row.id,
                row.popularity,
            ));
            let mut j: usize = 0;
            while j < row.titles.len()
                invariant
                    j <= row.titles@.len(),
                    consistent(titles@, exact@),
                    models(titles@) == before + title_entries(
                        row.titles@.take(j as int),
                        row.id,
                        row.popularity,
                    ),
                decreases row.titles@.len() - j,
            {
                assert(row.titles@.take(j + 1).drop_last() =~= row.titles@.take(j as int));
                index_title(&mut titles, &mut exact, &row.titles[j], row.id, row.popularity);
                j += 1;
                assert(models(titles@) =~= before + title_entries(
                    row.titles@.take(j as int),
                    row.id,
                    row.popularity,
                ));
            }
            assert(row.titles@.take(j as int) =~= row.titles@);
            assert(rows@.take(i + 1).drop_last() =~= rows@.take(i as int));
            i += 1;
        }
        assert(rows@.take(i as int) =~= rows@);
        CatalogIndex { titles, exact }
    }

    /// The id behind the first of `candidates` that names a row exactly, so
    /// callers pass the most specific form of a title first.
    pub fn lookup(&self, candidates: &[&str]) -> (r: Option<i64>)
        ensures
            r == first_exact(self.entries(), texts(candidates@)),
    {
        proof {
            use_type_invariant(self);
        }
        let ghost all = texts(candidates@);
        assert(all.skip(0) =~= all);
        let mut i: usize = 0;
        while i < candidates.len()
            invariant
                i <= candidates@.len(),
                all == texts(candidates@),
                consistent(self.titles@, self.exact@),
                first_exact(self.entries(), all) == first_exact(
                    self.entries(),
                    all.skip(i as int),
                ),
            decreases candidates@.len() - i,
        {
            let norm = normalize_title(candidates[i]);
            assert(all.skip(i as int)[0] == candidates@[i as int]@);
            assert(all.skip(i as int).drop_first() =~= all.skip(i + 1));
            assert(agrees(self.entries(), self.exact@, norm@));
            if let Some(row) = self.exact.get(norm.as_str()) {
                return Some(row.0);
            }
            i += 1;
        }
        None
    }

    /// The id behind the indexed title that fits one of `queries` best, or
    /// `None` when none may be linked. Of equal scores the more popular row's
    /// wins.
    pub fn fuzzy_lookup(&self, queries: &[&str]) -> (r: Option<i64>)
        ensures
            fuzzily_linked(r, queries@, self.entries()),
    {
        proof {
            use_type_invariant(self);
        }
        let mut best: Option<(u64, i64, i64)> = None;
        let ghost mut bq: int = 0;
        let ghost mut be: int = 0;
        let mut q: usize = 0;
        while q < queries.len()
            invariant
                q <= queries@.len(),
                consistent(self.titles@, self.exact@),
                best_so_far(best, queries@, self.entries(), bq, be, q as int, 0),
            decreases queries@.len() - q,
        {
            let norm = normalize_title(queries[q]);
            let list = split_words(&chars_of(norm.as_str()), WordKind::Visible);
            let mut e: usize = 0;
            while e < self.titles.len()
                invariant
                    e <= self.titles@.len(),
                    q < queries@.len(),
                    consistent(self.titles@, self.exact@),
                    norm@ == normalized(queries@[q as int]@),
                    spellings(list@) == words(norm@, WordKind::Visible),
                    best_so_far(best, queries@, self.entries(), bq, be, q as int, e as int),
                decreases self.titles@.len() - e,
            {
                let title = &self.titles[e];
                if have_long_word(&list, &title.words) {
                    let s: u64 = score(norm.as_str(), title.norm.as_str());
                    if s >= FUZZY_LINK_THRESHOLD {
                        assert(linkable(queries@[q as int]@, self.entries()[e as int]));
                        let better = match best {
                            None => true,
                            Some(b) => s > b.0 || (s == b.0 && title.popularity > b.1),
                        };
                        if better {
                            best = Some((s, title.popularity, title.id));
                            proof {
                                bq = q as int;
                                be = e as int;
                            }
                        }
                    }
                }
                e += 1;
            }
            q += 1;
        }
        match best {
            Some(b) => {
                assert(best_link(queries@, self.entries(), bq, be));
                Some(b.2)
            },
            None => None,
        }
    }

    /// Whether no title is indexed.
    pub fn is_empty(&self) -> (r: bool)
        ensures
            r == (self.entries().len() == 0),
    {
        self.titles.len() == 0
    }
}

} // verus!
