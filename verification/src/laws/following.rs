//! What is followed: what airs, what is still to be watched, and what it tells of
//! taste.

use vstd::prelude::*;
use crate::db::airing::{
    airing_cover, airing_entries, airing_entry, airing_entry_of, airing_shows, airing_title,
    airing_view, airs_before, airs_for, by_queue, by_release, known_times, law_release_orders,
    pending, pending_row, pending_rows, pending_view, queued_before, unseen_followed, PendingRow,
    PendingSort,
};
use crate::db::episodes::{numbered_before, of_series};
use crate::db::followed::{
    affinity_of, by_node_title, first_cover, first_kind, followed_of, followed_shows, genre_counted,
    genre_stats_of, graph_of, half_points_of, kind_counted, node_of, nodes_of, of_kind, points,
    scored, scored_genres, scored_name, scores, show_carries, titled, type_stats_of, with_genre,
    CanonicalFollowed,
};
use crate::db::series::series_at;
use crate::db::series_lists::has_genre;
use crate::db::{Db, EpisodeRow, SeriesRow};
use crate::genres::canonical;
use crate::laws::lists::lemma_filter_member;
use crate::models::{Episode, GenreAffinity, GenreStat, Series, SeriesGraphNode, TypeStat};
use crate::rows::{
    count_where, law_max_of, law_sorted_is_in_order, law_sorted_is_permutation,
    lemma_sorted_contains, sorted,
};
use crate::text::{lemma_precedes_total, lowercase, precedes};

verus! {

/// An airing show's next episode is the latest time that one of its series has;
/// none is later, and it is not known only where no series knows it. It is followed
/// where one of them is, and it is always airing.
pub proof fn law_airing_entry(entry: Series, db: Db, active: i64, members: Seq<SeriesRow>)
    requires
        airing_entry(entry, db, active, members),
    ensures
        forall|m: int|
            0 <= m < members.len() && (#[trigger] members[m]).next_episode_at is Some ==> (
            entry.next_episode_at matches Some(t) && members[m].next_episode_at->0 <= t),
        entry.next_episode_at is Some ==> exists|m: int|
            0 <= m < members.len() && (#[trigger] members[m]).next_episode_at
                == entry.next_episode_at,
        entry.followed <==> exists|m: int|
            0 <= m < members.len() && (#[trigger] members[m]).followed,
        entry.is_airing,
        exists|m: int|
            0 <= m < members.len() && (#[trigger] members[m]).id == entry.id && entry.url
                == members[m].url && entry.title == airing_title(db, members[m]) && entry.cover_url
                == airing_cover(db, members[m]),
        (exists|m: int| 0 <= m < members.len() && (#[trigger] members[m]).source_id == active)
            ==> exists|m: int|
            0 <= m < members.len() && (#[trigger] members[m]).id == entry.id && members[m].source_id
                == active,
{
    let rep = choose|rep: SeriesRow| airing_entry_of(entry, db, active, members, rep);
    let r = choose|r: int| 0 <= r < members.len() && members[r] == rep;
    assert(members[r].id == entry.id);
    let known = |m: SeriesRow| m.next_episode_at is Some;
    let own = members.filter(known);
    let times = known_times(members);
    assert(times =~= own.map_values(|m: SeriesRow| m.next_episode_at->0 as int));
    law_max_of(times);
    assert forall|m: int|
        0 <= m < members.len() && (#[trigger] members[m]).next_episode_at is Some implies (
    entry.next_episode_at matches Some(t) && members[m].next_episode_at->0 <= t) by {
        lemma_filter_member(members, known, members[m]);
        assert(members.contains(members[m]));
        let p = choose|p: int| 0 <= p < own.len() && own[p] == members[m];
        assert(times[p] == members[m].next_episode_at->0);
    }
    if entry.next_episode_at is Some {
        let t = entry.next_episode_at->0 as int;
        let p = choose|p: int| 0 <= p < times.len() && times[p] == t;
        lemma_filter_member(members, known, own[p]);
        assert(own.contains(own[p]));
        let m = choose|m: int| 0 <= m < members.len() && members[m] == own[p];
        assert(members[m].next_episode_at == entry.next_episode_at);
    }
    if exists|m: int| 0 <= m < members.len() && (#[trigger] members[m]).source_id == active {
        let m = choose|m: int| 0 <= m < members.len() && (#[trigger] members[m]).source_id == active;
        assert(!airs_for(active, members[m], rep));
        assert(members[r].source_id == active);
    }
}

/// An airing series is shown with the title and the cover of its entry in the
/// catalog; with its own where it has no entry, or the entry has no cover.
pub proof fn law_airing_title(db: Db, s: SeriesRow, c: int)
    requires
        crate::db::catalog_keyed(db.catalog@),
        0 <= c < db.catalog@.len(),
    ensures
        s.anilist_id is None ==> airing_title(db, s) == s.title && airing_cover(db, s)
            == s.cover_url,
        s.anilist_id == Some(db.catalog@[c].id) ==> airing_title(db, s) == db.catalog@[c].title
            && airing_cover(db, s) == if db.catalog@[c].cover_url is Some {
            db.catalog@[c].cover_url
        } else {
            s.cover_url
        },
{
    crate::laws::library::lemma_entry(db, c);
}

/// Which series stands for an airing show: one of the active site, then one that is
/// followed, then the one that was stored first.
pub proof fn law_airs_for(active: i64, a: SeriesRow, b: SeriesRow)
    ensures
        a.source_id == active && b.source_id != active ==> airs_for(active, a, b) && !airs_for(
            active,
            b,
            a,
        ),
        a.source_id == b.source_id && a.followed && !b.followed ==> airs_for(active, a, b)
            && !airs_for(active, b, a),
        a.source_id == b.source_id && a.followed == b.followed && a.id < b.id ==> airs_for(
            active,
            a,
            b,
        ) && !airs_for(active, b, a),
        !airs_for(active, a, a),
{
}

/// What airs latest is first; what has no time is last; of the same time it is the
/// titles that count.
pub proof fn law_airing_order(a: Series, b: Series)
    ensures
        (a.next_episode_at matches Some(x) && b.next_episode_at matches Some(y) && x > y)
            ==> airs_before(a, b) && !airs_before(b, a),
        a.next_episode_at is Some && b.next_episode_at is None ==> airs_before(a, b)
            && !airs_before(b, a),
        a.next_episode_at == b.next_episode_at && precedes(lowercase(a.title@), lowercase(b.title@))
            ==> airs_before(a, b) && !airs_before(b, a),
        !airs_before(a, a),
{
    lemma_precedes_total(lowercase(a.title@), lowercase(b.title@));
    lemma_precedes_total(lowercase(a.title@), lowercase(a.title@));
}

/// What airs is listed in that order, each show once.
pub proof fn law_airing_list(list: Seq<Series>, db: Db, active: i64)
    requires
        airing_view(list, db, active),
    ensures
        list.len() == airing_shows(db).len(),
        forall|i: int, j: int|
            0 <= i < j < list.len() ==> !airs_before(#[trigger] list[j], #[trigger] list[i]),
        forall|g: int|
            0 <= g < airing_shows(db).len() ==> #[trigger] aired_in(
                list,
                db,
                active,
                airing_shows(db)[g],
            ),
{
    let shows = airing_shows(db);
    let entries = choose|entries: Seq<Series>|
        #[trigger] airing_entries(entries, db, active, shows) && list == sorted(
            entries,
            by_release(),
        );
    law_release_orders();
    law_sorted_is_permutation(entries, by_release());
    law_sorted_is_in_order(entries, by_release());
    assert forall|i: int, j: int| 0 <= i < j < list.len() implies !airs_before(
        #[trigger] list[j],
        #[trigger] list[i],
    ) by {
        assert(!by_release()(list[j], list[i]));
    }
    assert forall|g: int| 0 <= g < shows.len() implies #[trigger] aired_in(
        list,
        db,
        active,
        shows[g],
    ) by {
        assert(airing_entry(entries[g], db, active, shows[g]));
        lemma_sorted_contains(entries, by_release(), entries[g]);
        assert(entries.contains(entries[g]));
        let i = choose|i: int| 0 <= i < list.len() && list[i] == entries[g];
        assert(airing_entry(list[i], db, active, shows[g]));
    }
}

/// Whether a list shows an airing show.
pub open spec fn aired_in(
    list: Seq<Series>,
    db: Db,
    active: i64,
    members: Seq<SeriesRow>,
) -> bool {
    exists|i: int| 0 <= i < list.len() && airing_entry(#[trigger] list[i], db, active, members)
}

/// What is still to be watched: an episode that is not seen, of a series of the
/// site that is followed and was not watched elsewhere.
pub proof fn law_pending(series: Seq<SeriesRow>, source_id: i64, e: EpisodeRow)
    ensures
        pending(series, source_id)(e) <==> {
            &&& !e.seen
            &&& series_at(series, e.series_id) matches Some(s) && s.followed
                && !s.watched_externally && s.source_id == source_id
        },
{
}

/// Whether a list holds an episode with its series.
pub open spec fn holds_episode(list: Seq<(Series, Episode)>, s: SeriesRow, e: EpisodeRow) -> bool {
    exists|i: int| 0 <= i < list.len() && #[trigger] list[i] == (s.shown(), e.shown())
}

/// The list of what is still to be watched holds every such episode, with its
/// series, and has as many rows as there are such episodes.
pub proof fn law_pending_list(
    list: Seq<(Series, Episode)>,
    db: Db,
    source_id: i64,
    sort: PendingSort,
    k: int,
)
    requires
        pending_view(list, db, source_id, sort),
        0 <= k < db.episodes@.len(),
    ensures
        list.len() == count_where(db.episodes@, pending(db.series@, source_id)),
        pending(db.series@, source_id)(db.episodes@[k]) ==> holds_episode(
            list,
            series_at(db.series@, db.episodes@[k].series_id)->0,
            db.episodes@[k],
        ),
{
    let hit = pending(db.series@, source_id);
    let waiting = db.episodes@.filter(hit);
    let rows = choose|rows: Seq<PendingRow>|
        #[trigger] pending_rows(rows, db, source_id) && list == sorted(
            rows,
            by_queue(sort),
        ).map_values(|r: PendingRow| (r.series.shown(), r.episode.shown()));
    law_sorted_is_permutation(rows, by_queue(sort));
    let e = db.episodes@[k];
    if hit(e) {
        lemma_filter_member(db.episodes@, hit, e);
        assert(db.episodes@.contains(e));
        let p = choose|p: int| 0 <= p < waiting.len() && waiting[p] == e;
        assert(pending_row(rows[p], db, source_id, waiting[p]));
        lemma_sorted_contains(rows, by_queue(sort), rows[p]);
        assert(rows.contains(rows[p]));
        let all = sorted(rows, by_queue(sort));
        let i = choose|i: int| 0 <= i < all.len() && all[i] == rows[p];
        assert(list[i] == (rows[p].series.shown(), rows[p].episode.shown()));
    }
}

/// The order of what is still to be watched: by how much is left of the series, from
/// the least or from the most as asked; then by title, series and number.
pub proof fn law_pending_order(a: PendingRow, b: PendingRow)
    ensures
        a.remaining < b.remaining ==> queued_before(a, b, PendingSort::RemainingAsc)
            && !queued_before(b, a, PendingSort::RemainingAsc) && queued_before(
            b,
            a,
            PendingSort::RemainingDesc,
        ) && !queued_before(a, b, PendingSort::RemainingDesc),
        a.remaining == b.remaining && precedes(a.series.title@, b.series.title@)
            ==> queued_before(a, b, PendingSort::RemainingAsc) && queued_before(
            a,
            b,
            PendingSort::RemainingDesc,
        ) && !queued_before(b, a, PendingSort::RemainingAsc),
        a.remaining == b.remaining && a.series == b.series && numbered_before(a.episode, b.episode)
            ==> queued_before(a, b, PendingSort::RemainingAsc) && queued_before(
            a,
            b,
            PendingSort::RemainingDesc,
        ),
        a.remaining == b.remaining && a.series.title@ == b.series.title@ && a.series.id
            < b.series.id ==> queued_before(a, b, PendingSort::RemainingAsc) && queued_before(
            a,
            b,
            PendingSort::RemainingDesc,
        ),
{
    lemma_precedes_total(a.series.title@, b.series.title@);
}

/// The kind of a show is that of the first of its series that has one; so is the
/// cover.
pub proof fn law_first_known(members: Seq<SeriesRow>)
    ensures
        first_kind(members) is None <==> forall|k: int|
            0 <= k < members.len() ==> (#[trigger] members[k]).kind is None,
        first_kind(members) is Some ==> exists|k: int|
            0 <= k < members.len() && (#[trigger] members[k]).kind == first_kind(members)
                && forall|j: int| 0 <= j < k ==> (#[trigger] members[j]).kind is None,
        first_cover(members) is None <==> forall|k: int|
            0 <= k < members.len() ==> (#[trigger] members[k]).cover_url is None,
        first_cover(members) is Some ==> exists|k: int|
            0 <= k < members.len() && (#[trigger] members[k]).cover_url == first_cover(members)
                && forall|j: int| 0 <= j < k ==> (#[trigger] members[j]).cover_url is None,
    decreases members.len(),
{
    if members.len() > 0 {
        let init = members.drop_last();
        let n = members.len() - 1;
        law_first_known(init);
        assert forall|k: int| 0 <= k < init.len() implies #[trigger] init[k] == members[k] by {}
        if first_kind(init) is Some {
            let k = choose|k: int|
                0 <= k < init.len() && (#[trigger] init[k]).kind == first_kind(init) && forall|
                    j: int,
                | 0 <= j < k ==> (#[trigger] init[j]).kind is None;
            assert(members[k].kind == first_kind(members));
            assert forall|j: int| 0 <= j < k implies (#[trigger] members[j]).kind is None by {
                assert(init[j] == members[j]);
            }
        } else {
            assert forall|j: int| 0 <= j < n implies (#[trigger] members[j]).kind is None by {
                assert(init[j] == members[j]);
            }
            assert(members[n].kind == first_kind(members));
        }
        if first_cover(init) is Some {
            let k = choose|k: int|
                0 <= k < init.len() && (#[trigger] init[k]).cover_url == first_cover(init)
                    && forall|j: int| 0 <= j < k ==> (#[trigger] init[j]).cover_url is None;
            assert(members[k].cover_url == first_cover(members));
            assert forall|j: int| 0 <= j < k implies (#[trigger] members[j]).cover_url is None by {
                assert(init[j] == members[j]);
            }
        } else {
            assert forall|j: int| 0 <= j < n implies (#[trigger] members[j]).cover_url is None by {
                assert(init[j] == members[j]);
            }
            assert(members[n].cover_url == first_cover(members));
        }
    }
}

/// What a series tells of taste, in half points: two points where it is followed,
/// one where it is wanted, one and a half off where it was discarded, and else
/// nothing. Following counts before tags.
pub proof fn law_points_of_a_series(s: SeriesRow)
    ensures
        s.followed ==> half_points_of(s) == 4,
        !s.followed && (s.backlog_status matches Some(t) && t@ == "want"@) ==> half_points_of(s)
            == 2,
        !s.followed && (s.backlog_status matches Some(t) && t@ == "discarded"@) ==> half_points_of(
            s,
        ) == -3,
        !s.followed && s.backlog_status is None ==> half_points_of(s) == 0,
        half_points_of(s) != 0 ==> s.followed || (s.backlog_status matches Some(t) && (t@
            == "want"@ || t@ == "discarded"@)),
{
    reveal_strlit("want");
    reveal_strlit("discarded");
    assert("want"@.len() == 4 && "discarded"@.len() == 9);
}

/// A tag is scored under the genre of the catalog that it names, and under itself
/// where it names none.
pub proof fn law_scored_under(tag: Seq<char>)
    ensures
        canonical(tag) matches Some(g) ==> scored_name(tag) == g,
        canonical(tag) is None ==> scored_name(tag) == tag,
{
}

/// What a tag of a series adds to a genre: the series' points where the tag names
/// the genre and the series is of the site, and else nothing.
pub open spec fn adds(db: Db, source_id: i64, name: Seq<char>, k: int) -> int {
    let g = db.series_genres@[k];
    match series_at(db.series@, g.series_id) {
        Some(s) => if s.source_id == source_id && scored_name(g.genre@) == name {
            half_points_of(s)
        } else {
            0
        },
        None => 0,
    }
}

/// A genre's points add up what every tag of every series adds, each once.
pub proof fn law_points_add_up(db: Db, source_id: i64, name: Seq<char>, n: int)
    requires
        0 <= n <= db.series_genres@.len(),
    ensures
        points(db, source_id, name, n) == crate::rows::sum_to(
            n,
            |k: int| adds(db, source_id, name, k),
        ),
    decreases n,
{
    if n > 0 {
        law_points_add_up(db, source_id, name, n - 1);
    }
}

/// What a genre is known by: every genre that a tag counts for is listed, and its
/// points are those that the tags add up to.
pub proof fn law_affinity(list: Seq<GenreAffinity>, db: Db, source_id: i64, i: int, k: int)
    requires
        affinity_of(list, db, source_id),
        0 <= k < db.series_genres@.len(),
        series_at(db.series@, db.series_genres@[k].series_id) matches Some(s) && s.source_id
            == source_id && (s.followed || (s.backlog_status matches Some(t) && (t@ == "want"@ || t@
            == "discarded"@))),
    ensures
        scored_genres(list).contains(scored_name(db.series_genres@[k].genre@)),
        0 <= i < list.len() ==> list[i].half_points == crate::rows::sum_to(
            db.series_genres@.len() as int,
            |k: int| adds(db, source_id, list[i].genre@, k),
        ),
        forall|a: int, b: int|
            0 <= a < b < list.len() ==> precedes(
                (#[trigger] list[a]).genre@,
                (#[trigger] list[b]).genre@,
            ),
{
    let g = db.series_genres@[k];
    let s = series_at(db.series@, g.series_id)->0;
    law_points_of_a_series(s);
    let name = scored_name(g.genre@);
    reveal_strlit("want");
    reveal_strlit("discarded");
    assert(half_points_of(s) != 0);
    assert(scores(db, source_id, db.series_genres@[k], name));
    assert(scored(db, source_id, name));
    if 0 <= i < list.len() {
        law_points_add_up(db, source_id, list[i].genre@, db.series_genres@.len() as int);
    }
    assert forall|a: int, b: int| 0 <= a < b < list.len() implies precedes(
        (#[trigger] list[a]).genre@,
        (#[trigger] list[b]).genre@,
    ) by {
        assert(precedes(scored_genres(list)[a], scored_genres(list)[b]));
    }
}

/// A show has a genre where one of its series has; it is of a kind where the first
/// kind known of its series is that.
pub proof fn law_shows_by_genre_and_kind(
    db: Db,
    members: Seq<SeriesRow>,
    genre: Seq<char>,
    kind: Seq<char>,
)
    ensures
        with_genre(db, genre)(members) <==> exists|m: int, k: int|
            #![trigger members[m], db.series_genres@[k]]
            0 <= m < members.len() && 0 <= k < db.series_genres@.len()
                && db.series_genres@[k].series_id == members[m].id && db.series_genres@[k].genre@
                == genre,
        of_kind(kind)(members) <==> kind.len() > 0 && (first_kind(members) matches Some(t) && t@
            == kind),
{
    if show_carries(db, members, genre) {
        let m = choose|m: int|
            0 <= m < members.len() && has_genre(
                db.series_genres@,
                (#[trigger] members[m]).id,
                genre,
            );
        let k = choose|k: int|
            0 <= k < db.series_genres@.len() && (#[trigger] db.series_genres@[k]).series_id
                == members[m].id && db.series_genres@[k].genre@ == genre;
        assert(members[m].id == db.series_genres@[k].series_id);
    }
    if exists|m: int, k: int|
        #![trigger members[m], db.series_genres@[k]]
        0 <= m < members.len() && 0 <= k < db.series_genres@.len() && db.series_genres@[k].series_id
            == members[m].id && db.series_genres@[k].genre@ == genre {
        let (m, k) = choose|m: int, k: int|
            #![trigger members[m], db.series_genres@[k]]
            0 <= m < members.len() && 0 <= k < db.series_genres@.len()
                && db.series_genres@[k].series_id == members[m].id && db.series_genres@[k].genre@
                == genre;
        assert(has_genre(db.series_genres@, members[m].id, genre));
    }
}

/// The title shown for a followed show is one of its series'; none of them is
/// shorter.
pub proof fn law_followed_title(members: Seq<SeriesRow>, title: Seq<char>)
    requires
        titled(members, title),
    ensures
        exists|m: int| 0 <= m < members.len() && (#[trigger] members[m]).title@ == title,
        forall|m: int| 0 <= m < members.len() ==> title.len() <= (#[trigger] members[m]).title@.len(),
{
    assert forall|m: int| 0 <= m < members.len() implies title.len() <= (
    #[trigger] members[m]).title@.len() by {
        assert(!crate::db::franchise::shown_rather(members[m].title@, title));
    }
}

/// What is left of a series that is still to be watched: all its episodes that are
/// not seen.
pub proof fn law_what_is_left(row: PendingRow, db: Db, source_id: i64, e: EpisodeRow)
    requires
        pending_row(row, db, source_id, e),
        pending(db.series@, source_id)(e),
    ensures
        row.remaining == count_where(
            db.episodes@,
            |x: EpisodeRow| x.series_id == e.series_id && !x.seen,
        ),
        row.series.id == e.series_id,
        row.episode == e,
{
    let one = pending(db.series@, source_id);
    let own = of_series(e.series_id);
    let left = |x: EpisodeRow| x.series_id == e.series_id && !x.seen;
    crate::laws::lists::law_conditions_combine(db.episodes@, one, own);
    assert((|x: EpisodeRow| one(x) && own(x)) =~= left);
    crate::laws::lists::law_first_is_first(
        db.series@,
        crate::db::series::with_id(e.series_id),
    );
}

/// What the badge counts: the episodes that are not seen of the site's series that
/// are followed.
pub proof fn law_unseen_followed(series: Seq<SeriesRow>, source_id: i64, e: EpisodeRow)
    ensures
        unseen_followed(series, source_id)(e) <==> !e.seen && (series_at(series, e.series_id)
            matches Some(s) && s.followed && s.source_id == source_id),
        pending(series, source_id)(e) ==> unseen_followed(series, source_id)(e),
{
}

/// The genres of what is followed: from the most shows down, in order where as many
/// have them; each with the number of shows that have it, and every genre of a show.
pub proof fn law_genre_stats(list: Seq<GenreStat>, db: Db, g: int, genre: Seq<char>)
    requires
        genre_stats_of(list, db),
        0 <= g < followed_shows(db.series@).len(),
        show_carries(db, followed_shows(db.series@)[g], genre),
    ensures
        exists|i: int| 0 <= i < list.len() && (#[trigger] list[i]).genre@ == genre,
        forall|i: int, j: int|
            0 <= i < j < list.len() ==> (#[trigger] list[i]).count >= (#[trigger] list[j]).count && (
            list[i].count == list[j].count ==> precedes(list[i].genre@, list[j].genre@)),
        forall|i: int|
            0 <= i < list.len() ==> 1 <= (#[trigger] list[i]).count <= followed_shows(
                db.series@,
            ).len() && list[i].count == count_where(
                followed_shows(db.series@),
                |m: Seq<SeriesRow>| show_carries(db, m, list[i].genre@),
            ),
{
    let shows = followed_shows(db.series@);
    crate::rows::lemma_count_zero(shows, with_genre(db, genre));
    assert(with_genre(db, genre)(shows[g]));
    assert(genre_counted(list, genre));
    assert forall|i: int| 0 <= i < list.len() implies 1 <= (#[trigger] list[i]).count <= shows.len()
        && list[i].count == count_where(
        shows,
        |m: Seq<SeriesRow>| show_carries(db, m, list[i].genre@),
    ) by {
        let t = list[i].genre@;
        crate::rows::lemma_count_zero(shows, with_genre(db, t));
        assert(genre_counted(list, t));
        assert(with_genre(db, t) =~= (|m: Seq<SeriesRow>| show_carries(db, m, t)));
    }
}

/// The kinds of what is followed, likewise; every show counts for one kind at most.
pub proof fn law_type_stats(list: Seq<TypeStat>, db: Db, g: int)
    requires
        type_stats_of(list, db),
        0 <= g < followed_shows(db.series@).len(),
    ensures
        first_kind(followed_shows(db.series@)[g]) matches Some(k) && k@.len() > 0 ==> exists|i: int|
            0 <= i < list.len() && (#[trigger] list[i]).kind@ == first_kind(
                followed_shows(db.series@)[g],
            )->0@,
        forall|i: int, j: int|
            0 <= i < j < list.len() ==> (#[trigger] list[i]).count >= (#[trigger] list[j]).count && (
            list[i].count == list[j].count ==> precedes(list[i].kind@, list[j].kind@)),
        forall|i: int|
            0 <= i < list.len() ==> 1 <= (#[trigger] list[i]).count <= followed_shows(
                db.series@,
            ).len() && list[i].kind@.len() > 0,
{
    let shows = followed_shows(db.series@);
    if first_kind(shows[g]) is Some {
        let t = first_kind(shows[g])->0@;
        crate::rows::lemma_count_zero(shows, of_kind(t));
        if t.len() > 0 {
            assert(of_kind(t)(shows[g]));
            assert(kind_counted(list, t));
        }
    }
    assert forall|i: int| 0 <= i < list.len() implies 1 <= (#[trigger] list[i]).count <= shows.len()
        && list[i].kind@.len() > 0 by {
        let t = list[i].kind@;
        crate::rows::lemma_count_zero(shows, of_kind(t));
        assert(kind_counted(list, t));
        let k = choose|k: int| 0 <= k < shows.len() && of_kind(t)(#[trigger] shows[k]);
    }
}

/// The graph of what is followed: a node for every show, in the order of their
/// titles, each with its genres and no others.
pub proof fn law_graph(list: Seq<SeriesGraphNode>, db: Db)
    requires
        graph_of(list, db),
    ensures
        list.len() == followed_shows(db.series@).len(),
        forall|i: int, j: int|
            0 <= i < j < list.len() ==> !precedes(
                (#[trigger] list[j]).title@,
                (#[trigger] list[i]).title@,
            ),
        forall|g: int|
            0 <= g < followed_shows(db.series@).len() ==> #[trigger] drawn_in(
                list,
                db,
                followed_shows(db.series@)[g],
            ),
{
    let shows = followed_shows(db.series@);
    let nodes = choose|nodes: Seq<SeriesGraphNode>| #[trigger]
        nodes_of(nodes, db) && list == sorted(nodes, by_node_title());
    assert(crate::rows::orders(by_node_title())) by {
        assert forall|a: SeriesGraphNode, b: SeriesGraphNode| #[trigger]
            by_node_title()(a, b) implies !by_node_title()(b, a) by {
            lemma_precedes_total(a.title@, b.title@);
        }
        assert forall|a: SeriesGraphNode, b: SeriesGraphNode, c: SeriesGraphNode|
            !(#[trigger] by_node_title()(b, a)) && !(#[trigger] by_node_title()(
                c,
                b,
            )) implies !by_node_title()(c, a) by {
            lemma_precedes_total(a.title@, b.title@);
            lemma_precedes_total(b.title@, c.title@);
            lemma_precedes_total(a.title@, c.title@);
            if precedes(a.title@, b.title@) && precedes(b.title@, c.title@) {
                crate::text::lemma_precedes_transitive(a.title@, b.title@, c.title@);
            }
        }
    }
    law_sorted_is_permutation(nodes, by_node_title());
    law_sorted_is_in_order(nodes, by_node_title());
    assert forall|i: int, j: int| 0 <= i < j < list.len() implies !precedes(
        (#[trigger] list[j]).title@,
        (#[trigger] list[i]).title@,
    ) by {
        assert(!by_node_title()(list[j], list[i]));
    }
    assert forall|g: int| 0 <= g < shows.len() implies #[trigger] drawn_in(list, db, shows[g]) by {
        assert(node_of(nodes[g], db, shows[g]));
        lemma_sorted_contains(nodes, by_node_title(), nodes[g]);
        assert(nodes.contains(nodes[g]));
        let i = choose|i: int| 0 <= i < list.len() && list[i] == nodes[g];
        assert(node_of(list[i], db, shows[g]));
    }
}

/// Whether a graph has a node for a show.
pub open spec fn drawn_in(list: Seq<SeriesGraphNode>, db: Db, members: Seq<SeriesRow>) -> bool {
    exists|i: int| 0 <= i < list.len() && node_of(#[trigger] list[i], db, members)
}

/// A node stands for its show: the id of the first series, its first kind and cover,
/// and exactly the genres that one of the series has.
pub proof fn law_node(n: SeriesGraphNode, db: Db, members: Seq<SeriesRow>, genre: Seq<char>)
    requires
        node_of(n, db, members),
    ensures
        n.id == members[0].id,
        n.kind == first_kind(members),
        n.cover_url == first_cover(members),
        (exists|i: int| 0 <= i < n.genres@.len() && (#[trigger] n.genres@[i])@ == genre)
            <==> show_carries(db, members, genre),
{
    let names = crate::rows::key_views(n.genres@);
    if exists|i: int| 0 <= i < n.genres@.len() && (#[trigger] n.genres@[i])@ == genre {
        let i = choose|i: int| 0 <= i < n.genres@.len() && (#[trigger] n.genres@[i])@ == genre;
        assert(names[i] == genre);
        assert(names.contains(genre));
    }
    if show_carries(db, members, genre) {
        assert(names.contains(genre));
        let i = choose|i: int| 0 <= i < names.len() && names[i] == genre;
        assert(n.genres@[i]@ == genre);
    }
}

/// What is kept of a followed show: all its series, in their order, with one's title
/// and the first kind and cover that is known.
pub proof fn law_followed_show(c: CanonicalFollowed, members: Seq<SeriesRow>, m: int)
    requires
        followed_of(c, members),
        0 <= m < members.len(),
    ensures
        c.member_ids@.len() == members.len(),
        c.member_ids@[m] == members[m].id,
        c.kind == first_kind(members),
        c.cover_url == first_cover(members),
        c.display_title@.len() <= members[m].title@.len(),
{
    law_followed_title(members, c.display_title@);
}

} // verus!
