//! A small cache of page texts that forgets them soon.
//!
//! Times are milliseconds of a clock that does not go back.

use vstd::prelude::*;
use crate::text::same_text;

verus! {

/// How long a page is kept, in milliseconds.
pub const HTML_CACHE_TTL: u64 = 600_000;

/// How many pages are kept.
pub const HTML_CACHE_MAX_ENTRIES: usize = 64;

/// A page as it was stored.
pub struct Page {
    pub stored_at: int,
    pub html: Seq<char>,
}

struct CacheEntry {
    url: String,
    stored_at: u64,
    html: String,
}

/// The pages by address.
spec fn pages(entries: Seq<CacheEntry>) -> Map<Seq<char>, Page>
    decreases entries.len(),
{
    if entries.len() == 0 {
        Map::empty()
    } else {
        pages(entries.drop_last()).insert(entries.last().url@, page_of(entries.last()))
    }
}

spec fn page_of(e: CacheEntry) -> Page {
    Page { stored_at: e.stored_at as int, html: e.html@ }
}

/// Whether no two entries have the same address.
spec fn distinct(entries: Seq<CacheEntry>) -> bool {
    forall|i: int, j: int|
        0 <= i < j < entries.len() ==> #[trigger] entries[i].url@ != #[trigger] entries[j].url@
}

spec fn stored(entries: Seq<CacheEntry>, url: Seq<char>) -> bool {
    exists|i: int| 0 <= i < entries.len() && (#[trigger] entries[i]).url@ == url
}

proof fn lemma_pages(entries: Seq<CacheEntry>)
    requires
        distinct(entries),
    ensures
        forall|u: Seq<char>| #[trigger] pages(entries).dom().contains(u) <==> stored(entries, u),
        forall|i: int|
            0 <= i < entries.len() ==> pages(entries)[(#[trigger] entries[i]).url@] == page_of(
                entries[i],
            ),
        pages(entries).dom().finite(),
        pages(entries).len() == entries.len(),
    decreases entries.len(),
{
    if entries.len() > 0 {
        let init = entries.drop_last();
        assert forall|i: int, j: int| 0 <= i < j < init.len() implies #[trigger] init[i].url@
            != #[trigger] init[j].url@ by {
            assert(init[i] == entries[i] && init[j] == entries[j]);
        }
        lemma_pages(init);
        let last = entries.last();
        assert(entries[entries.len() - 1] == last);
        assert(!stored(init, last.url@)) by {
            if stored(init, last.url@) {
                let i = choose|i: int| 0 <= i < init.len() && (#[trigger] init[i]).url@ == last.url@;
                assert(entries[i].url@ != entries[entries.len() - 1].url@);
            }
        }
        assert forall|u: Seq<char>| #[trigger]
            pages(entries).dom().contains(u) <==> stored(entries, u) by {
            if stored(init, u) {
                let i = choose|i: int| 0 <= i < init.len() && (#[trigger] init[i]).url@ == u;
                assert(entries[i].url@ == u);
            }
            if stored(entries, u) {
                let i = choose|i: int| 0 <= i < entries.len() && (#[trigger] entries[i]).url@ == u;
                if i < init.len() {
                    assert(init[i].url@ == u);
                }
            }
        }
        assert forall|i: int| 0 <= i < entries.len() implies pages(entries)[(
        #[trigger] entries[i]).url@] == page_of(entries[i]) by {
            if i < init.len() {
                assert(init[i] == entries[i]);
                assert(entries[i].url@ != entries[entries.len() - 1].url@);
            }
        }
    }
}

/// The pages of a list with one entry taken out are those without its address.
proof fn lemma_removed(entries: Seq<CacheEntry>, at: int)
    requires
        distinct(entries),
        0 <= at < entries.len(),
    ensures
        distinct(entries.remove(at)),
        pages(entries.remove(at)) == pages(entries).remove(entries[at].url@),
{
    let rest = entries.remove(at);
    assert forall|i: int, j: int| 0 <= i < j < rest.len() implies #[trigger] rest[i].url@
        != #[trigger] rest[j].url@ by {
        let a = if i < at { i } else { i + 1 };
        let b = if j < at { j } else { j + 1 };
        assert(rest[i] == entries[a] && rest[j] == entries[b]);
    }
    lemma_pages(entries);
    lemma_pages(rest);
    let url = entries[at].url@;
    let x = pages(rest);
    let y = pages(entries).remove(url);
    assert forall|u: Seq<char>| #[trigger] x.dom().contains(u) <==> y.dom().contains(u) by {
        if stored(rest, u) {
            let i = choose|i: int| 0 <= i < rest.len() && (#[trigger] rest[i]).url@ == u;
            let a = if i < at { i } else { i + 1 };
            assert(rest[i] == entries[a]);
            assert(stored(entries, u));
            if a < at {
                assert(entries[a].url@ != entries[at].url@);
            } else {
                assert(entries[at].url@ != entries[a].url@);
            }
        }
        if stored(entries, u) && u != url {
            let a = choose|a: int| 0 <= a < entries.len() && (#[trigger] entries[a]).url@ == u;
            let i = if a < at { a } else { a - 1 };
            assert(rest[i] == entries[a]);
        }
    }
    assert forall|u: Seq<char>| x.dom().contains(u) implies #[trigger] x[u] == y[u] by {
        assert(stored(rest, u));
        let i = choose|i: int| 0 <= i < rest.len() && (#[trigger] rest[i]).url@ == u;
        let a = if i < at { i } else { i + 1 };
        assert(rest[i] == entries[a]);
    }
    assert(x =~= y);
}

/// A bounded cache of pages.
pub struct HtmlCache {
    entries: Vec<CacheEntry>,
}

impl View for HtmlCache {
    type V = Map<Seq<char>, Page>;

    closed spec fn view(&self) -> Map<Seq<char>, Page> {
        pages(self.entries@)
    }
}

impl Default for HtmlCache {
    fn default() -> (r: Self)
        ensures
            r@ == Map::<Seq<char>, Page>::empty(),
    {
        HtmlCache { entries: Vec::new() }
    }
}

/// Whether a page is still good at a time.
pub open spec fn fresh(page: Page, now: u64) -> bool {
    now - page.stored_at < HTML_CACHE_TTL
}

/// Whether no page was stored before that of an address.
pub open spec fn oldest(cache: Map<Seq<char>, Page>, url: Seq<char>) -> bool {
    &&& cache.dom().contains(url)
    &&& forall|u: Seq<char>| #[trigger]
        cache.dom().contains(u) ==> cache[url].stored_at <= cache[u].stored_at
}

/// Whether the second cache is the first with a page stored. In a full cache the
/// page of a new address takes the place of an oldest one.
pub open spec fn page_stored(
    before: Map<Seq<char>, Page>,
    after: Map<Seq<char>, Page>,
    url: Seq<char>,
    page: Page,
) -> bool {
    if before.dom().contains(url) || before.len() < HTML_CACHE_MAX_ENTRIES {
        after == before.insert(url, page)
    } else {
        exists|old_url: Seq<char>| #[trigger]
            oldest(before, old_url) && after == before.remove(old_url).insert(url, page)
    }
}

impl HtmlCache {
    #[verifier::type_invariant]
    spec fn bounded(self) -> bool {
        &&& distinct(self.entries@)
        &&& self.entries@.len() <= HTML_CACHE_MAX_ENTRIES
    }

    /// The cache never holds more than its bound.
    pub fn len(&self) -> (r: usize)
        ensures
            r == self@.len(),
            self@.dom().finite(),
            r <= HTML_CACHE_MAX_ENTRIES,
    {
        proof {
            use_type_invariant(self);
            lemma_pages(self.entries@);
        }
        self.entries.len()
    }

    fn find(&self, url: &str) -> (r: Option<usize>)
        ensures
            r is None ==> !stored(self.entries@, url@),
            r matches Some(i) ==> i < self.entries@.len() && self.entries@[i as int].url@ == url@,
    {
        let mut i: usize = 0;
        while i < self.entries.len()
            invariant
                i <= self.entries@.len(),
                forall|k: int| 0 <= k < i ==> (#[trigger] self.entries@[k]).url@ != url@,
            decreases self.entries@.len() - i,
        {
            if same_text(self.entries[i].url.as_str(), url) {
                return Some(i);
            }
            i += 1;
        }
        None
    }

    /// The page of an address, if it was stored less than the time to live ago. A
    /// page that is too old is dropped.
    pub fn get(&mut self, url: &str, now: u64) -> (r: Option<String>)
        ensures
            r is Some <==> old(self)@.dom().contains(url@) && fresh(old(self)@[url@], now),
            r matches Some(html) ==> html@ == old(self)@[url@].html && final(self)@ == old(self)@,
            r is None ==> final(self)@ == old(self)@.remove(url@),
    {
        proof {
            use_type_invariant(&*self);
            lemma_pages(self.entries@);
        }
        let ghost before = self@;
        match self.find(url) {
            Some(i) => {
                let age: u64 = if now >= self.entries[i].stored_at {
                    now - self.entries[i].stored_at
                } else {
                    0
                };
                assert(self.entries@[i as int].url@ == url@);
                if age < HTML_CACHE_TTL {
                    return Some(self.entries[i].html.clone());
                }
                proof {
                    lemma_removed(self.entries@, i as int);
                }
                let mut rest: Vec<CacheEntry> = Vec::new();
                std::mem::swap(&mut rest, &mut self.entries);
                rest.remove(i);
                self.entries = rest;
                None
            },
            None => {
                assert(before.remove(url@) =~= before);
                None
            },
        }
    }

    /// Stores the page of an address. In a full cache a new address takes the
    /// place of an oldest page.
    pub fn put(&mut self, url: &str, html: String, now: u64)
        ensures
            page_stored(
                old(self)@,
                final(self)@,
                url@,
                (Page { stored_at: now as int, html: html@ }),
            ),
    {
        proof {
            use_type_invariant(&*self);
            lemma_pages(self.entries@);
        }
        let ghost before = self@;
        let ghost page = Page { stored_at: now as int, html: html@ };
        let found = self.find(url);
        let mut rest: Vec<CacheEntry> = Vec::new();
        std::mem::swap(&mut rest, &mut self.entries);
        let ghost had = rest@;
        match found {
            Some(i) => {
                proof {
                    lemma_removed(had, i as int);
                }
                rest.remove(i);
            },
            None => {
                if rest.len() >= HTML_CACHE_MAX_ENTRIES {
                    let i: usize = Self::oldest_at(&rest);
                    proof {
                        lemma_removed(had, i as int);
                        let gone = had[i as int].url@;
                        assert(stored(had, gone));
                        assert forall|u: Seq<char>| #[trigger]
                            before.dom().contains(u) implies before[gone].stored_at
                            <= before[u].stored_at by {
                            assert(stored(had, u));
                            let k = choose|k: int|
                                0 <= k < had.len() && (#[trigger] had[k]).url@ == u;
                            assert(before[had[k].url@] == page_of(had[k]));
                            assert(before[had[i as int].url@] == page_of(had[i as int]));
                        }
                        assert(oldest(before, gone));
                    }
                    rest.remove(i);
                }
            },
        }
        let ghost kept = rest@;
        rest.push(CacheEntry { url: url.to_owned(), stored_at: now, html });
        proof {
            lemma_pages(kept);
            assert(!pages(kept).dom().contains(url@));
            assert(!stored(kept, url@));
            assert(rest@.drop_last() =~= kept);
            assert(before.remove(url@).insert(url@, page) =~= before.insert(url@, page));
            assert forall|a: int, b: int| 0 <= a < b < rest@.len() implies #[trigger] rest@[a].url@
                != #[trigger] rest@[b].url@ by {
                assert(rest@[a] == kept[a]);
                if b < kept.len() {
                    assert(rest@[b] == kept[b]);
                }
            }
        }
        self.entries = rest;
    }

    fn oldest_at(entries: &Vec<CacheEntry>) -> (r: usize)
        requires
            entries@.len() > 0,
        ensures
            r < entries@.len(),
            forall|k: int|
                0 <= k < entries@.len() ==> entries@[r as int].stored_at <= (
                #[trigger] entries@[k]).stored_at,
    {
        let mut best: usize = 0;
        let mut i: usize = 1;
        while i < entries.len()
            invariant
                best < entries@.len(),
                i <= entries@.len(),
                forall|k: int|
                    0 <= k < i ==> entries@[best as int].stored_at <= (
                    #[trigger] entries@[k]).stored_at,
            decreases entries@.len() - i,
        {
            if entries[i].stored_at < entries[best].stored_at {
                best = i;
            }
            i += 1;
        }
        best
    }
}

/// What was stored is read back until the time to live has passed, and not
/// after.
pub proof fn law_read_back(
    before: Map<Seq<char>, Page>,
    after: Map<Seq<char>, Page>,
    url: Seq<char>,
    page: Page,
    now: u64,
)
    requires
        page_stored(before, after, url, page),
    ensures
        after.dom().contains(url),
        after[url] == page,
        fresh(after[url], now) <==> now - page.stored_at < HTML_CACHE_TTL,
{
}

/// Storing a page leaves all others alone, but for an oldest one that makes room
/// in a full cache.
pub proof fn law_others_stay(
    before: Map<Seq<char>, Page>,
    after: Map<Seq<char>, Page>,
    url: Seq<char>,
    page: Page,
    other: Seq<char>,
)
    requires
        page_stored(before, after, url, page),
        before.dom().contains(other),
        other != url,
        before.dom().contains(url) || before.len() < HTML_CACHE_MAX_ENTRIES || !oldest(before, other),
    ensures
        after.dom().contains(other),
        after[other] == before[other],
{
}

} // verus!
