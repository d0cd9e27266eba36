//! Sources: the addresses under which sites are reached.

use vstd::prelude::*;
use crate::db::{only_sources, Db, DbError, SourceRow};
use crate::rows::{
    first_where, lemma_first_where_at, lemma_first_where_none, lemma_max_push, max_of, updated,
};
use crate::text::same_text;

verus! {

/// The condition of being at an address.
pub open spec fn at_base(base_url: Seq<char>) -> spec_fn(SourceRow) -> bool {
    |s: SourceRow| s.base_url@ == base_url
}

/// The condition of having an id.
pub open spec fn source_id_is(id: i64) -> spec_fn(SourceRow) -> bool {
    |s: SourceRow| s.id == id
}

/// The id that a new source gets.
pub open spec fn next_source_id(sources: Seq<SourceRow>) -> int {
    match max_of(sources.map_values(|s: SourceRow| s.id as int)) {
        Some(m) => m + 1,
        None => 1,
    }
}

/// The place that the next upsert gets.
pub open spec fn next_upsert(sources: Seq<SourceRow>) -> int {
    match max_of(sources.map_values(|s: SourceRow| s.upserted as int)) {
        Some(m) => m + 1,
        None => 1,
    }
}

/// The source of a site that was upserted last.
pub open spec fn newest(sources: Seq<SourceRow>, site_id: Seq<char>) -> Option<SourceRow>
    decreases sources.len(),
{
    if sources.len() == 0 {
        None
    } else {
        let before = newest(sources.drop_last(), site_id);
        let s = sources.last();
        if s.site_id@ != site_id {
            before
        } else {
            match before {
                Some(b) => if b.upserted > s.upserted { before } else { Some(s) },
                None => Some(s),
            }
        }
    }
}

/// The newest source of a site is one of the site's, and none of them was
/// upserted later; there is none only where the site has no source.
pub proof fn law_newest_is_latest(sources: Seq<SourceRow>, site_id: Seq<char>)
    ensures
        newest(sources, site_id) is None <==> forall|i: int|
            0 <= i < sources.len() ==> (#[trigger] sources[i]).site_id@ != site_id,
        newest(sources, site_id) matches Some(s) ==> sources.contains(s) && s.site_id@ == site_id
            && forall|i: int|
            0 <= i < sources.len() && (#[trigger] sources[i]).site_id@ == site_id
                ==> sources[i].upserted <= s.upserted,
    decreases sources.len(),
{
    if sources.len() > 0 {
        let init = sources.drop_last();
        let last = sources.last();
        law_newest_is_latest(init, site_id);
        assert(sources[sources.len() - 1] == last);
        assert forall|i: int| 0 <= i < init.len() implies init[i] == #[trigger] sources[i] by {}
        if newest(init, site_id) is None && last.site_id@ != site_id {
            assert forall|i: int| 0 <= i < sources.len() implies (
            #[trigger] sources[i]).site_id@ != site_id by {
                if i < init.len() {
                    assert(init[i].site_id@ != site_id);
                }
            }
        }
        if newest(init, site_id) is Some {
            let b = newest(init, site_id)->0;
            let k = choose|k: int| 0 <= k < init.len() && init[k] == b;
            assert(sources[k] == b);
        }
        if newest(sources, site_id) is Some {
            let s = newest(sources, site_id)->0;
            assert forall|i: int|
                0 <= i < sources.len() && (#[trigger] sources[i]).site_id@
                    == site_id implies sources[i].upserted <= s.upserted by {
                if i < init.len() {
                    assert(init[i].site_id@ == site_id);
                }
            }
        }
    }
}

/// What was upserted after all others is the newest of its site.
proof fn lemma_newest_at(sources: Seq<SourceRow>, i: int)
    requires
        0 <= i < sources.len(),
        forall|k: int|
            0 <= k < sources.len() && k != i ==> (#[trigger] sources[k]).upserted
                < sources[i].upserted,
    ensures
        newest(sources, sources[i].site_id@) == Some(sources[i]),
{
    let s = sources[i];
    law_newest_is_latest(sources, s.site_id@);
    let n = newest(sources, s.site_id@)->0;
    let k = choose|k: int| 0 <= k < sources.len() && sources[k] == n;
    assert(sources[k] == n);
    assert(s.upserted <= n.upserted);
}

impl Db {
    /// The place that the next upsert gets, if one is left.
    fn next_place(&self) -> (r: Option<i64>)
        ensures
            r is Some <==> next_upsert(self.sources@) <= i64::MAX,
            r matches Some(n) ==> n == next_upsert(self.sources@),
    {
        let ghost f = |s: SourceRow| s.upserted as int;
        let mut best: Option<i64> = None;
        let mut i: usize = 0;
        assert(self.sources@.take(0).map_values(f) =~= Seq::empty());
        while i < self.sources.len()
            invariant
                i <= self.sources@.len(),
                f == (|s: SourceRow| s.upserted as int),
                best is None <==> max_of(self.sources@.take(i as int).map_values(f)) is None,
                best matches Some(m) ==> max_of(self.sources@.take(i as int).map_values(f))
                    == Some(m as int),
            decreases self.sources@.len() - i,
        {
            let n: i64 = self.sources[i].upserted;
            proof {
                let before = self.sources@.take(i as int);
                lemma_max_push(before.map_values(f), n as int);
                assert(self.sources@.take(i + 1).map_values(f) =~= before.map_values(f).push(
                    n as int,
                ));
            }
            best = match best {
                Some(m) => if m >= n { Some(m) } else { Some(n) },
                None => Some(n),
            };
            i += 1;
        }
        assert(self.sources@.take(i as int) =~= self.sources@);
        match best {
            Some(m) => if m == i64::MAX { None } else { Some(m + 1) },
            None => Some(1),
        }
    }

    /// Stores the address under which a site was reached and returns its id. An
    /// address that is known gets the name and the site anew. Either way it is
    /// now the newest source of its site.
    pub fn upsert_source(&mut self, name: &str, base_url: &str, site_id: &str) -> (r: Result<
        i64,
        DbError,
    >)
        requires
            old(self).well_formed(),
        ensures
            final(self).well_formed(),
            only_sources(*old(self), *final(self)),
            r matches Ok(id) ==> (newest(final(self).sources@, site_id@) matches Some(s) && s.id
                == id),
            ({
                let id = next_source_id(old(self).sources@);
                let place = next_upsert(old(self).sources@);
                match first_where(old(self).sources@, at_base(base_url@)) {
                    Some(row) => if place > i64::MAX {
                        r == Err::<i64, DbError>(DbError::Full) && *final(self) == *old(self)
                    } else {
                        r == Ok::<i64, DbError>(row.id) && updated(
                            old(self).sources@,
                            final(self).sources@,
                            at_base(base_url@),
                            |a: SourceRow, b: SourceRow|
                                {
                                    &&& b == (SourceRow {
                                        name: b.name,
                                        site_id: b.site_id,
                                        upserted: b.upserted,
                                        ..a
                                    })
                                    &&& b.name@ == name@
                                    &&& b.site_id@ == site_id@
                                    &&& b.upserted == place
                                },
                        )
                    },
                    None => if id > i64::MAX || place > i64::MAX {
                        r == Err::<i64, DbError>(DbError::Full) && *final(self) == *old(self)
                    } else {
                        &&& r is Ok
                        &&& r->Ok_0 == id
                        &&& final(self).sources@.len() == old(self).sources@.len() + 1
                        &&& final(self).sources@.drop_last() == old(self).sources@
                        &&& final(self).sources@.last().id == id
                        &&& final(self).sources@.last().name@ == name@
                        &&& final(self).sources@.last().base_url@ == base_url@
                        &&& final(self).sources@.last().site_id@ == site_id@
                        &&& final(self).sources@.last().upserted == place
                    },
                }
            }),
    {
        let ghost rows = self.sources@;
        let ghost hit = at_base(base_url@);
        let place = self.next_place();
        let ghost places = rows.map_values(|s: SourceRow| s.upserted as int);
        proof {
            crate::rows::law_max_of(places);
            assert forall|k: int| 0 <= k < rows.len() implies (#[trigger] rows[k]).upserted
                < next_upsert(rows) by {
                assert(places[k] == rows[k].upserted);
            }
        }
        let mut i: usize = 0;
        while i < self.sources.len()
            invariant
                *self == *old(self),
                self.well_formed(),
                place is Some <==> next_upsert(rows) <= i64::MAX,
                place matches Some(n) ==> n == next_upsert(rows),
                forall|k: int|
                    0 <= k < rows.len() ==> (#[trigger] rows[k]).upserted < next_upsert(rows),
                i <= self.sources@.len(),
                rows == self.sources@,
                hit == at_base(base_url@),
                forall|k: int| 0 <= k < i ==> !hit(#[trigger] rows[k]),
            decreases self.sources@.len() - i,
        {
            if same_text(self.sources[i].base_url.as_str(), base_url) {
                let id: i64 = self.sources[i].id;
                proof {
                    lemma_first_where_at(rows, hit, i as int);
                }
                let n: i64 = match place {
                    Some(n) => n,
                    None => {
                        return Err(DbError::Full);
                    },
                };
                self.sources[i].name = name.to_owned();
                self.sources[i].site_id = site_id.to_owned();
                self.sources[i].upserted = n;
                proof {
                    let now = self.sources@;
                    assert(now =~= rows.update(i as int, now[i as int]));
                    assert forall|k: int| 0 <= k < rows.len() && k != i implies !hit(
                        #[trigger] rows[k],
                    ) by {
                        if k > i {
                            assert(rows[i as int].base_url@ != rows[k].base_url@);
                        }
                    }
                    assert forall|k: int| 0 <= k < now.len() && k != i implies (
                    #[trigger] now[k]).upserted < now[i as int].upserted by {
                        assert(now[k] == rows[k]);
                    }
                    lemma_newest_at(now, i as int);
                    assert forall|a: int, b: int| 0 <= a < b < now.len() implies
                        #[trigger] now[a].upserted != #[trigger] now[b].upserted by {
                        if a != i && b != i {
                            assert(rows[a].upserted != rows[b].upserted);
                        }
                    }
                }
                return Ok(id);
            }
            i += 1;
        }
        proof {
            lemma_first_where_none(rows, hit);
        }
        let place: i64 = match place {
            Some(p) => p,
            None => {
                return Err(DbError::Full);
            },
        };
        let ghost ids = rows.map_values(|s: SourceRow| s.id as int);
        let n: usize = self.sources.len();
        let id: i64 = if n == 0 {
            1
        } else {
            let top: i64 = self.sources[n - 1].id;
            proof {
                crate::rows::law_max_of(ids);
                let m = max_of(ids)->0;
                let k = choose|k: int| 0 <= k < ids.len() && ids[k] == m;
                assert(ids[n - 1] <= m);
                assert(ids[k] == rows[k].id);
                if k < n - 1 {
                    assert(rows[k].id < rows[n - 1].id);
                }
                assert(m == top);
                lemma_first_where_none(rows, hit);
            }
            if top == i64::MAX {
                return Err(DbError::Full);
            }
            top + 1
        };
        self.sources.push(
            SourceRow {
                id,
                name: name.to_owned(),
                base_url: base_url.to_owned(),
                site_id: site_id.to_owned(),
                upserted: place,
            },
        );
        proof {
            lemma_first_where_none(rows, hit);
            crate::rows::law_max_of(ids);
            assert(self.sources@.drop_last() =~= rows);
            assert forall|k: int| 0 <= k < rows.len() implies (#[trigger] rows[k]).id < id by {
                if k < n - 1 {
                    assert(rows[k].id < rows[n - 1].id);
                }
            }
            assert forall|k: int| 0 <= k < rows.len() implies (#[trigger] rows[k]).base_url@
                != base_url@ by {
                assert(!hit(rows[k]));
            }
            if n > 0 {
                assert(rows[0].id >= 1);
            }
            let now = self.sources@;
            assert forall|k: int| 0 <= k < now.len() && k != n implies (
            #[trigger] now[k]).upserted < now[n as int].upserted by {
                assert(now[k] == rows[k]);
            }
            lemma_newest_at(now, n as int);
        }
        Ok(id)
    }

    /// The address of a source.
    pub fn get_source_base_url(&self, source_id: i64) -> (r: Result<Option<String>, DbError>)
        ensures
            r == Ok::<Option<String>, DbError>(
                match first_where(self.sources@, source_id_is(source_id)) {
                    Some(s) => Some(s.base_url),
                    None => None,
                },
            ),
    {
        let mut i: usize = 0;
        while i < self.sources.len()
            invariant
                i <= self.sources@.len(),
                forall|k: int| 0 <= k < i ==> !source_id_is(source_id)(#[trigger] self.sources@[k]),
            decreases self.sources@.len() - i,
        {
            if self.sources[i].id == source_id {
                proof {
                    lemma_first_where_at(self.sources@, source_id_is(source_id), i as int);
                }
                return Ok(Some(self.sources[i].base_url.clone()));
            }
            i += 1;
        }
        proof {
            lemma_first_where_none(self.sources@, source_id_is(source_id));
        }
        Ok(None)
    }

    /// The source of a site that was upserted last; `None` if the site has never
    /// been scanned.
    pub fn get_source_id_for_site(&self, site_id: &str) -> (r: Result<Option<i64>, DbError>)
        ensures
            r == Ok::<Option<i64>, DbError>(
                match newest(self.sources@, site_id@) {
                    Some(s) => Some(s.id),
                    None => None,
                },
            ),
    {
        let mut best: Option<usize> = None;
        let mut i: usize = 0;
        assert(self.sources@.take(0) =~= Seq::empty());
        while i < self.sources.len()
            invariant
                i <= self.sources@.len(),
                best matches Some(b) ==> b < i,
                newest(self.sources@.take(i as int), site_id@) == match best {
                    Some(b) => Some(self.sources@[b as int]),
                    None => None,
                },
            decreases self.sources@.len() - i,
        {
            assert(self.sources@.take(i + 1).drop_last() =~= self.sources@.take(i as int));
            if same_text(self.sources[i].site_id.as_str(), site_id) {
                best = match best {
                    Some(b) => if self.sources[b].upserted > self.sources[i].upserted {
                        Some(b)
                    } else {
                        Some(i)
                    },
                    None => Some(i),
                };
            }
            i += 1;
        }
        assert(self.sources@.take(i as int) =~= self.sources@);
        match best {
            Some(b) => Ok(Some(self.sources[b].id)),
            None => Ok(None),
        }
    }
}

} // verus!
