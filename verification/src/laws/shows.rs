//! Shows: how the series of several sites are put together.

use vstd::prelude::*;
use crate::db::airing::{airing, airing_key, airing_keys, airing_shows};
use crate::db::followed::{followed, followed_shows};
use crate::db::franchise::franchise;
use crate::db::identity::{canon_of, law_canon_identifies, same_show};
use crate::db::library::{belongs, tracked_shows};
use crate::db::library_list::{canon_keys, in_library, library_shows, seen_count_of};
use crate::db::rollups::{evident, franchise_keys, watched_franchises};
use crate::db::stats::{shows_with, ShowFilter};
use crate::db::{opt_text, Db, SeriesRow};
use crate::laws::lists::{grouped, in_a_group, law_grouped, lemma_filter_member};
use crate::matching::{dedup_key, normalized};
use crate::rows::{carried, gathered, lemma_gathered};

verus! {

/// Whether series are divided into shows: every series that counts is in a show,
/// a show holds series that count, all of one show, and no two shows are the same.
pub open spec fn divided(
    shows: Seq<Seq<SeriesRow>>,
    series: Seq<SeriesRow>,
    counts: spec_fn(SeriesRow) -> bool,
    same: spec_fn(SeriesRow, SeriesRow) -> bool,
) -> bool {
    &&& forall|i: int|
        0 <= i < series.len() && counts(#[trigger] series[i]) ==> in_a_group(shows, series[i])
    &&& forall|g: int| 0 <= g < shows.len() ==> (#[trigger] shows[g]).len() > 0
    &&& forall|g: int, m: int|
        #![trigger shows[g][m]]
        0 <= g < shows.len() && 0 <= m < shows[g].len() ==> series.contains(shows[g][m]) && counts(
            shows[g][m],
        )
    &&& forall|g: int, h: int, m: int, n: int|
        #![trigger shows[g][m], shows[h][n]]
        0 <= g < shows.len() && 0 <= m < shows[g].len() && 0 <= h < shows.len() && 0 <= n
            < shows[h].len() ==> (same(shows[g][m], shows[h][n]) <==> g == h)
}

proof fn lemma_divided(
    series: Seq<SeriesRow>,
    hit: spec_fn(SeriesRow) -> bool,
    key: spec_fn(SeriesRow) -> Seq<char>,
    counts: spec_fn(SeriesRow) -> bool,
    same: spec_fn(SeriesRow, SeriesRow) -> bool,
)
    requires
        forall|s: SeriesRow| #[trigger] hit(s) == counts(s),
        forall|a: SeriesRow, b: SeriesRow| #[trigger] same(a, b) <==> key(a) == key(b),
    ensures
        divided(grouped(series.filter(hit), key), series, counts, same),
{
    let rows = series.filter(hit);
    let shows = grouped(rows, key);
    law_grouped(rows, key);
    assert forall|i: int| 0 <= i < series.len() && counts(#[trigger] series[i]) implies in_a_group(
        shows,
        series[i],
    ) by {
        assert(hit(series[i]));
        lemma_filter_member(series, hit, series[i]);
        assert(series.contains(series[i]));
        let p = choose|p: int| 0 <= p < rows.len() && rows[p] == series[i];
        assert(in_a_group(shows, rows[p]));
    }
    assert forall|g: int, m: int|
        #![trigger shows[g][m]]
        0 <= g < shows.len() && 0 <= m < shows[g].len() implies series.contains(shows[g][m])
        && counts(shows[g][m]) by {
        lemma_filter_member(series, hit, shows[g][m]);
        assert(hit(shows[g][m]));
    }
    assert forall|g: int, h: int, m: int, n: int|
        #![trigger shows[g][m], shows[h][n]]
        0 <= g < shows.len() && 0 <= m < shows[g].len() && 0 <= h < shows.len() && 0 <= n
            < shows[h].len() implies (same(shows[g][m], shows[h][n]) <==> g == h) by {
        assert(key(shows[g][m]) == key(shows[g][0]));
        assert(key(shows[h][n]) == key(shows[h][0]));
        if g < h {
            assert(key(shows[g][0]) != key(shows[h][0]));
        } else if h < g {
            assert(key(shows[h][0]) != key(shows[g][0]));
        }
    }
}

/// Series that are linked are of one show where they are linked to one entry of the
/// catalog; those that are not, where their titles are the same once normalized. A
/// linked one and an unlinked one are not.
pub proof fn law_one_show(a: SeriesRow, b: SeriesRow)
    ensures
        a.anilist_id is Some && b.anilist_id is Some ==> (same_show(a, b) <==> a.anilist_id
            == b.anilist_id),
        a.anilist_id is None && b.anilist_id is None ==> (same_show(a, b) <==> normalized(a.title@)
            == normalized(b.title@)),
        a.anilist_id is Some != b.anilist_id is Some ==> !same_show(a, b),
        canon_of(a) == canon_of(b) <==> same_show(a, b),
{
    law_canon_identifies(a, b);
}

/// The library shows each show with a series that is followed or was watched
/// elsewhere, once.
pub proof fn law_library_is_divided(series: Seq<SeriesRow>)
    ensures
        divided(
            library_shows(series),
            series,
            |s: SeriesRow| s.followed || s.watched_externally,
            |a: SeriesRow, b: SeriesRow| same_show(a, b),
        ),
{
    let key = |s: SeriesRow| canon_of(s);
    let same = |a: SeriesRow, b: SeriesRow| same_show(a, b);
    assert forall|a: SeriesRow, b: SeriesRow| #[trigger] same(a, b) <==> key(a) == key(b) by {
        law_canon_identifies(a, b);
    }
    lemma_divided(
        series,
        in_library(),
        key,
        |s: SeriesRow| s.followed || s.watched_externally,
        same,
    );
    let rows = series.filter(in_library());
    assert(rows.map_values(key) =~= canon_keys(rows));
    assert(library_shows(series) =~= grouped(rows, key));
}

/// What is tracked across sites: shows with a series that is followed, was watched
/// elsewhere or is wanted, once each.
pub proof fn law_tracked_shows_are_divided(series: Seq<SeriesRow>)
    ensures
        divided(
            tracked_shows(series),
            series,
            |s: SeriesRow|
                s.followed || s.watched_externally || opt_text(s.backlog_status) == Some("want"@),
            |a: SeriesRow, b: SeriesRow| same_show(a, b),
        ),
{
    let key = |s: SeriesRow| canon_of(s);
    let same = |a: SeriesRow, b: SeriesRow| same_show(a, b);
    assert forall|a: SeriesRow, b: SeriesRow| #[trigger] same(a, b) <==> key(a) == key(b) by {
        law_canon_identifies(a, b);
    }
    lemma_divided(
        series,
        belongs(),
        key,
        |s: SeriesRow|
            s.followed || s.watched_externally || opt_text(s.backlog_status) == Some("want"@),
        same,
    );
    let rows = series.filter(belongs());
    assert(rows.map_values(key) =~= canon_keys(rows));
    assert(tracked_shows(series) =~= grouped(rows, key));
}

/// The shows with a series that is followed, once each.
pub proof fn law_followed_shows_are_divided(series: Seq<SeriesRow>)
    ensures
        divided(
            followed_shows(series),
            series,
            |s: SeriesRow| s.followed,
            |a: SeriesRow, b: SeriesRow| same_show(a, b),
        ),
{
    let key = |s: SeriesRow| canon_of(s);
    let same = |a: SeriesRow, b: SeriesRow| same_show(a, b);
    assert forall|a: SeriesRow, b: SeriesRow| #[trigger] same(a, b) <==> key(a) == key(b) by {
        law_canon_identifies(a, b);
    }
    lemma_divided(series, followed(), key, |s: SeriesRow| s.followed, same);
    let rows = series.filter(followed());
    assert(rows.map_values(key) =~= canon_keys(rows));
    assert(followed_shows(series) =~= grouped(rows, key));
}

/// Whether two airing series are one show: linked to one entry, or both unlinked
/// with titles that have one key across sites.
pub open spec fn airs_together(a: SeriesRow, b: SeriesRow) -> bool {
    match a.anilist_id {
        Some(id) => b.anilist_id == Some(id),
        None => b.anilist_id is None && dedup_key(a.title@) == dedup_key(b.title@),
    }
}

/// The airing shows: every airing series is in one, and each is there once.
pub proof fn law_airing_shows_are_divided(db: Db)
    ensures
        divided(
            airing_shows(db),
            db.series@,
            |s: SeriesRow| s.is_airing,
            |a: SeriesRow, b: SeriesRow| airs_together(a, b),
        ),
{
    let key = |s: SeriesRow| airing_key(db, s);
    let same = |a: SeriesRow, b: SeriesRow| airs_together(a, b);
    assert forall|a: SeriesRow, b: SeriesRow| #[trigger] same(a, b) <==> key(a) == key(b) by {
        lemma_airing_keys(db, a, b);
    }
    lemma_divided(db.series@, airing(), key, |s: SeriesRow| s.is_airing, same);
    let rows = db.series@.filter(airing());
    assert(rows.map_values(key) =~= airing_keys(db, rows));
    assert(airing_shows(db) =~= grouped(rows, key));
}

proof fn lemma_airing_keys(db: Db, a: SeriesRow, b: SeriesRow)
    ensures
        airing_key(db, a) == airing_key(db, b) <==> airs_together(a, b),
{
    reveal_strlit("al:");
    reveal_strlit("t:");
    let x = airing_key(db, a);
    let y = airing_key(db, b);
    if a.anilist_id is Some && b.anilist_id is Some {
        crate::text::lemma_int_text_injective(a.anilist_id->0 as int, b.anilist_id->0 as int);
        if x == y {
            assert(x.skip(3) =~= crate::text::int_text(a.anilist_id->0 as int));
            assert(y.skip(3) =~= crate::text::int_text(b.anilist_id->0 as int));
        }
    } else if a.anilist_id is None && b.anilist_id is None {
        if x == y {
            assert(x.skip(2) =~= dedup_key(a.title@));
            assert(y.skip(2) =~= dedup_key(b.title@));
        }
    } else {
        if a.anilist_id is Some {
            assert(x[0] == 'a');
            assert(y[0] == 't');
        } else {
            assert(x[0] == 't');
            assert(y[0] == 'a');
        }
    }
}

/// The franchises that were watched: every series that was watched elsewhere or
/// has a seen episode is in one, and each is there once.
pub proof fn law_watched_franchises_are_divided(db: Db)
    ensures
        divided(
            watched_franchises(db),
            db.series@,
            |s: SeriesRow| s.watched_externally || seen_count_of(db.episodes@, s.id) > 0,
            |a: SeriesRow, b: SeriesRow| franchise(a.title@) == franchise(b.title@),
        ),
{
    let key = |s: SeriesRow| franchise(s.title@);
    let same = |a: SeriesRow, b: SeriesRow| franchise(a.title@) == franchise(b.title@);
    lemma_divided(
        db.series@,
        evident(db),
        key,
        |s: SeriesRow| s.watched_externally || seen_count_of(db.episodes@, s.id) > 0,
        same,
    );
    let rows = db.series@.filter(evident(db));
    assert(rows.map_values(key) =~= franchise_keys(rows));
    assert(watched_franchises(db) =~= grouped(rows, key));
}

/// Whether a series passes a filter, said of its fields.
pub open spec fn passes(filter: ShowFilter, db: Db, s: SeriesRow) -> bool {
    match filter {
        ShowFilter::Followed => s.followed,
        ShowFilter::FollowedAiring => s.followed && s.is_airing,
        ShowFilter::FollowedFinished => s.followed && !s.is_airing,
        ShowFilter::Pending => s.followed && exists|k: int|
            0 <= k < db.episodes@.len() && (#[trigger] db.episodes@[k]).series_id == s.id
                && !db.episodes@[k].seen,
        ShowFilter::Want => s.backlog_status matches Some(t) && t@ == "want"@,
        ShowFilter::Discarded => s.backlog_status matches Some(t) && t@ == "discarded"@,
        ShowFilter::WatchedExternally => s.watched_externally,
    }
}

/// The shows behind a figure: those of the series that pass its filter. A show with
/// several such series counts once.
pub proof fn law_shows_behind_a_figure(db: Db, filter: ShowFilter, t: Seq<char>)
    ensures
        shows_with(db, filter).finite(),
        shows_with(db, filter).contains(t) <==> exists|k: int|
            0 <= k < db.series@.len() && passes(filter, db, #[trigger] db.series@[k]) && canon_of(
                db.series@[k],
            ) == t,
        shows_with(db, filter).len() <= db.series@.len(),
{
    let text = |s: SeriesRow| canon_of(s);
    let hit = filter.condition(db);
    lemma_gathered(db.series@, hit, text);
    assert(shows_with(db, filter) == gathered(db.series@, hit, text));
    if carried(db.series@, hit, text, t) {
        let k = choose|k: int|
            0 <= k < db.series@.len() && hit(#[trigger] db.series@[k]) && text(db.series@[k]) == t;
        assert(filter.holds(db, db.series@[k]));
        assert(passes(filter, db, db.series@[k]));
    }
    if exists|k: int|
        0 <= k < db.series@.len() && passes(filter, db, #[trigger] db.series@[k]) && canon_of(
            db.series@[k],
        ) == t {
        let k = choose|k: int|
            0 <= k < db.series@.len() && passes(filter, db, #[trigger] db.series@[k]) && canon_of(
                db.series@[k],
            ) == t;
        assert(filter.holds(db, db.series@[k]));
        assert(hit(db.series@[k]));
        assert(carried(db.series@, hit, text, t));
    }
}

} // verus!
