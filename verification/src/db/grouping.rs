//! Series of several sites put together into shows.

use vstd::prelude::*;
use crate::db::{copy_text, opt_text, CatalogRow, Db, SeriesRow};
use crate::rows::{as_places, first_where, lemma_first_where_at, lemma_first_where_none};
use crate::text::{chars_of, precedes, text_precedes};

verus! {

/// The rows at the given places.
pub open spec fn picked(rows: Seq<SeriesRow>, places: Seq<int>) -> Seq<SeriesRow> {
    places.map_values(|i: int| rows[i])
}

/// The rows at the given places.
pub fn pick_rows(rows: &Vec<SeriesRow>, places: &Vec<usize>) -> (r: Vec<SeriesRow>)
    requires
        forall|k: int| 0 <= k < places@.len() ==> #[trigger] places@[k] < rows@.len(),
    ensures
        r@ == picked(rows@, as_places(places@)),
{
    let mut out: Vec<SeriesRow> = Vec::new();
    let mut i: usize = 0;
    while i < places.len()
        invariant
            i <= places@.len(),
            forall|k: int| 0 <= k < places@.len() ==> #[trigger] places@[k] < rows@.len(),
            out@.len() == i,
            forall|k: int| 0 <= k < i ==> #[trigger] out@[k] == rows@[places@[k] as int],
        decreases places@.len() - i,
    {
        out.push(rows[places[i]].copy());
        i += 1;
    }
    assert(out@ =~= picked(rows@, as_places(places@)));
    out
}

/// The later of two optional texts.
pub open spec fn later(a: Option<Seq<char>>, b: Option<Seq<char>>) -> Option<Seq<char>> {
    match (a, b) {
        (Some(x), Some(y)) => if precedes(x, y) { b } else { a },
        (None, _) => b,
        (_, None) => a,
    }
}

/// The latest of optional texts.
pub open spec fn latest(s: Seq<Option<Seq<char>>>) -> Option<Seq<char>>
    decreases s.len(),
{
    if s.len() == 0 {
        None
    } else {
        later(latest(s.drop_last()), s.last())
    }
}

/// The latest text with one more added.
pub proof fn lemma_latest_push(s: Seq<Option<Seq<char>>>, x: Option<Seq<char>>)
    ensures
        latest(s.push(x)) == later(latest(s), x),
{
    assert(s.push(x).drop_last() =~= s);
}

/// The later of two optional texts.
pub fn later_text(a: Option<String>, b: &Option<String>) -> (r: Option<String>)
    ensures
        opt_text(r) == later(opt_text(a), opt_text(*b)),
{
    match (&a, b) {
        (Some(x), Some(y)) => {
            if text_precedes(&chars_of(x.as_str()), &chars_of(y.as_str())) {
                copy_text(b)
            } else {
                a
            }
        },
        (None, _) => copy_text(b),
        (_, None) => a,
    }
}

/// The condition of being the catalog entry with an id.
pub open spec fn entry_with_id(id: i64) -> spec_fn(CatalogRow) -> bool {
    |c: CatalogRow| c.id == id
}

/// The catalog entry that a series is linked to.
pub open spec fn catalog_of(catalog: Seq<CatalogRow>, anilist_id: Option<i64>) -> Option<CatalogRow> {
    match anilist_id {
        Some(id) => first_where(catalog, entry_with_id(id)),
        None => None,
    }
}

impl Db {
    /// The place of the catalog entry with an id.
    pub fn find_catalog(&self, id: i64) -> (r: Option<usize>)
        ensures
            r is None ==> first_where(self.catalog@, entry_with_id(id)) is None && forall|k: int|
                0 <= k < self.catalog@.len() ==> (#[trigger] self.catalog@[k]).id != id,
            r matches Some(i) ==> i < self.catalog@.len() && self.catalog@[i as int].id == id
                && first_where(self.catalog@, entry_with_id(id)) == Some(self.catalog@[i as int]),
    {
        let mut i: usize = 0;
        while i < self.catalog.len()
            invariant
                i <= self.catalog@.len(),
                forall|k: int| 0 <= k < i ==> !entry_with_id(id)(#[trigger] self.catalog@[k]),
            decreases self.catalog@.len() - i,
        {
            if self.catalog[i].id == id {
                proof {
                    lemma_first_where_at(self.catalog@, entry_with_id(id), i as int);
                }
                return Some(i);
            }
            i += 1;
        }
        proof {
            lemma_first_where_none(self.catalog@, entry_with_id(id));
            assert forall|k: int| 0 <= k < self.catalog@.len() implies (
            #[trigger] self.catalog@[k]).id != id by {
                assert(!entry_with_id(id)(self.catalog@[k]));
            }
        }
        None
    }

    /// The place of the catalog entry that a series is linked to.
    pub fn find_linked(&self, anilist_id: Option<i64>) -> (r: Option<usize>)
        ensures
            r is None ==> catalog_of(self.catalog@, anilist_id) is None,
            r matches Some(i) ==> i < self.catalog@.len() && catalog_of(self.catalog@, anilist_id)
                == Some(self.catalog@[i as int]),
    {
        match anilist_id {
            Some(id) => self.find_catalog(id),
            None => None,
        }
    }
}

} // verus!
