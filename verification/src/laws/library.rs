//! The library: what it says of a show, from what its series say.

use vstd::prelude::*;
use crate::db::episodes::next_unseen;
use crate::db::grouping::catalog_of;
use crate::db::library::{
    completed, entry_before, entry_of, merged_tag, missing_on, names_better, present_keys,
    reconciled,
};
use crate::db::library_list::{
    by_lower_title, cover_of, item_for, item_of, items_of, library_shows, library_view,
    seen_count_of, stands_for, studio_of, total_of,
};
use crate::db::identity::{canon_of, law_canon_identifies, same_show};
use crate::db::series::series_at;
use crate::db::series_lists::{by_genre, genre_list, genres_of, watermark};
use crate::db::{opt_text, Db, EpisodeRow, LibraryEntry, SeriesGenreRow, SeriesRow};
use crate::laws::lists::{law_sorted_holds_the_same, lemma_filter_member};
use crate::models::LibraryItem;
use crate::rows::{
    carried, gathered, law_max_of, lemma_first_where_at, lemma_gathered, max_of, orders, sorted,
};
use crate::text::{lemma_precedes_total, lemma_precedes_transitive, lowercase, precedes};

verus! {

/// An item counts the episodes of the series that has most of them: no series of
/// the show has more, and one has that many. The same holds of the seen ones. It
/// was watched elsewhere where one of the series was.
pub proof fn law_item_counts_the_most(
    item: LibraryItem,
    db: Db,
    active: i64,
    members: Seq<SeriesRow>,
)
    requires
        item_for(item, db, active, members),
    ensures
        forall|m: int|
            0 <= m < members.len() ==> total_of(db.episodes@, (#[trigger] members[m]).id)
                <= item.total_episodes && seen_count_of(db.episodes@, members[m].id)
                <= item.seen_episodes,
        exists|m: int|
            0 <= m < members.len() && total_of(db.episodes@, (#[trigger] members[m]).id)
                == item.total_episodes,
        exists|m: int|
            0 <= m < members.len() && seen_count_of(db.episodes@, (#[trigger] members[m]).id)
                == item.seen_episodes,
        item.watched_externally <==> exists|m: int|
            0 <= m < members.len() && (#[trigger] members[m]).watched_externally,
{
    let rep = choose|rep: SeriesRow| item_of(item, db, active, members, rep);
    let totals = members.map_values(|m: SeriesRow| total_of(db.episodes@, m.id) as int);
    let seens = members.map_values(|m: SeriesRow| seen_count_of(db.episodes@, m.id) as int);
    law_max_of(totals);
    law_max_of(seens);
    assert forall|m: int| 0 <= m < members.len() implies total_of(
        db.episodes@,
        (#[trigger] members[m]).id,
    ) <= item.total_episodes && seen_count_of(db.episodes@, members[m].id)
        <= item.seen_episodes by {
        assert(totals[m] == total_of(db.episodes@, members[m].id));
        assert(seens[m] == seen_count_of(db.episodes@, members[m].id));
    }
    let p = choose|p: int| 0 <= p < totals.len() && totals[p] == item.total_episodes;
    assert(total_of(db.episodes@, members[p].id) == item.total_episodes);
    let q = choose|q: int| 0 <= q < seens.len() && seens[q] == item.seen_episodes;
    assert(seen_count_of(db.episodes@, members[q].id) == item.seen_episodes);
}

/// An item shows one of the show's series: its title, its next episode, its kind,
/// its genres. Of the series of the active site, if there is one, none has more
/// episodes than it.
pub proof fn law_item_shows_one_series(
    item: LibraryItem,
    db: Db,
    active: i64,
    members: Seq<SeriesRow>,
)
    requires
        item_for(item, db, active, members),
    ensures
        exists|m: int|
            {
                &&& 0 <= m < members.len()
                &&& #[trigger] members[m].id == item.series.id
                &&& item.series.title == members[m].title
                &&& item.series.url == members[m].url
                &&& item.kind == members[m].kind
                &&& item.next_episode == next_unseen(db.episodes@, members[m].id)
                &&& item.genres@ == genre_list(db.series_genres@, members[m].id)
                &&& item.series.cover_url == cover_of(db, members[m])
                &&& item.studio == studio_of(db, members[m])
                &&& forall|k: int|
                    0 <= k < members.len() ==> ((#[trigger] members[k]).source_id == active
                        ==> members[m].source_id == active) && (members[k].source_id
                        == members[m].source_id ==> total_of(db.episodes@, members[k].id)
                        <= total_of(db.episodes@, members[m].id))
            },
{
    let rep = choose|rep: SeriesRow| item_of(item, db, active, members, rep);
    let m = choose|m: int| 0 <= m < members.len() && members[m] == rep;
    assert(members[m].id == item.series.id);
    assert forall|k: int| 0 <= k < members.len() implies ((#[trigger] members[k]).source_id == active
        ==> members[m].source_id == active) && (members[k].source_id == members[m].source_id
        ==> total_of(db.episodes@, members[k].id) <= total_of(db.episodes@, members[m].id)) by {
        assert(!stands_for(db, active, members[k], rep));
    }
}

/// Which series stands for a show: one of the active site, then one with more
/// episodes, then one with a cover, then the one that was stored first.
pub proof fn law_stands_for(db: Db, active: i64, a: SeriesRow, b: SeriesRow)
    ensures
        a.source_id == active && b.source_id != active ==> stands_for(db, active, a, b)
            && !stands_for(db, active, b, a),
        a.source_id == b.source_id && total_of(db.episodes@, a.id) > total_of(db.episodes@, b.id)
            ==> stands_for(db, active, a, b) && !stands_for(db, active, b, a),
        a.source_id == b.source_id && total_of(db.episodes@, a.id) == total_of(db.episodes@, b.id)
            && cover_of(db, a) is Some && cover_of(db, b) is None ==> stands_for(db, active, a, b)
            && !stands_for(db, active, b, a),
        a.source_id == b.source_id && total_of(db.episodes@, a.id) == total_of(db.episodes@, b.id)
            && cover_of(db, a) is Some == cover_of(db, b) is Some && a.id < b.id ==> stands_for(
            db,
            active,
            a,
            b,
        ) && !stands_for(db, active, b, a),
        !stands_for(db, active, a, a),
{
}

/// A series' own cover is shown before that of its entry in the catalog; the studio
/// comes from the entry.
pub proof fn law_cover_and_studio(db: Db, s: SeriesRow, c: int)
    requires
        crate::db::catalog_keyed(db.catalog@),
        0 <= c < db.catalog@.len(),
    ensures
        s.cover_url is Some ==> cover_of(db, s) == s.cover_url,
        s.cover_url is None && s.anilist_id == Some(db.catalog@[c].id) ==> cover_of(db, s)
            == db.catalog@[c].cover_url,
        s.anilist_id == Some(db.catalog@[c].id) ==> studio_of(db, s) == db.catalog@[c].studio,
        s.anilist_id is None ==> studio_of(db, s) is None && cover_of(db, s) == s.cover_url,
{
    if s.anilist_id == Some(db.catalog@[c].id) {
        lemma_entry(db, c);
    }
}

/// The entry with an id is the one that is found.
pub proof fn lemma_entry(db: Db, c: int)
    requires
        crate::db::catalog_keyed(db.catalog@),
        0 <= c < db.catalog@.len(),
    ensures
        catalog_of(db.catalog@, Some(db.catalog@[c].id)) == Some(db.catalog@[c]),
{
    let id = db.catalog@[c].id;
    let hit = crate::db::grouping::entry_with_id(id);
    assert forall|k: int| 0 <= k < c implies !hit(#[trigger] db.catalog@[k]) by {}
    lemma_first_where_at(db.catalog@, hit, c);
}

/// Whether a list shows a show.
pub open spec fn shown_in(
    list: Seq<LibraryItem>,
    db: Db,
    active: i64,
    members: Seq<SeriesRow>,
) -> bool {
    exists|i: int| 0 <= i < list.len() && item_for(#[trigger] list[i], db, active, members)
}

/// The library is in the order of its titles without regard to case, and shows
/// every show once.
pub proof fn law_library_is_in_order(list: Seq<LibraryItem>, db: Db, active: i64)
    requires
        library_view(list, db, active),
    ensures
        list.len() == library_shows(db.series@).len(),
        forall|i: int, j: int|
            0 <= i < j < list.len() ==> !precedes(
                lowercase((#[trigger] list[j]).series.title@),
                lowercase((#[trigger] list[i]).series.title@),
            ),
        forall|g: int|
            0 <= g < library_shows(db.series@).len() ==> #[trigger] shown_in(
                list,
                db,
                active,
                library_shows(db.series@)[g],
            ),
{
    let shows = library_shows(db.series@);
    let items = choose|items: Seq<LibraryItem>|
        #[trigger] items_of(items, db, active, shows) && list == sorted(items, by_lower_title());
    assert(orders(by_lower_title())) by {
        assert forall|a: LibraryItem, b: LibraryItem| #[trigger]
            by_lower_title()(a, b) implies !by_lower_title()(b, a) by {
            lemma_precedes_total(lowercase(a.series.title@), lowercase(b.series.title@));
        }
        assert forall|a: LibraryItem, b: LibraryItem, c: LibraryItem|
            !(#[trigger] by_lower_title()(b, a)) && !(#[trigger] by_lower_title()(
                c,
                b,
            )) implies !by_lower_title()(c, a) by {
            let x = lowercase(a.series.title@);
            let y = lowercase(b.series.title@);
            let z = lowercase(c.series.title@);
            lemma_precedes_total(x, y);
            lemma_precedes_total(y, z);
            lemma_precedes_total(x, z);
            if precedes(x, y) && precedes(y, z) {
                lemma_precedes_transitive(x, y, z);
            }
        }
    }
    crate::rows::law_sorted_is_permutation(items, by_lower_title());
    crate::rows::law_sorted_is_in_order(items, by_lower_title());
    assert forall|i: int, j: int| 0 <= i < j < list.len() implies !precedes(
        lowercase((#[trigger] list[j]).series.title@),
        lowercase((#[trigger] list[i]).series.title@),
    ) by {
        assert(!by_lower_title()(list[j], list[i]));
    }
    assert forall|g: int| 0 <= g < shows.len() implies #[trigger] shown_in(
        list,
        db,
        active,
        shows[g],
    ) by {
        assert(item_for(items[g], db, active, shows[g]));
        crate::rows::lemma_sorted_contains(items, by_lower_title(), items[g]);
        assert(items.contains(items[g]));
        let i = choose|i: int| 0 <= i < list.len() && list[i] == items[g];
        assert(item_for(list[i], db, active, shows[g]));
    }
}

/// The genres of a series, in order: those, and no others.
pub proof fn law_genres_of_a_series(genres: Seq<SeriesGenreRow>, id: i64, name: String)
    ensures
        genre_list(genres, id).contains(name) <==> exists|k: int|
            0 <= k < genres.len() && (#[trigger] genres[k]).series_id == id && genres[k].genre
                == name,
        forall|i: int, j: int|
            0 <= i < j < genre_list(genres, id).len() ==> !precedes(
                (#[trigger] genre_list(genres, id)[j])@,
                (#[trigger] genre_list(genres, id)[i])@,
            ),
{
    let own = genres.filter(genres_of(id));
    let list = sorted(own, by_genre());
    let names = genre_list(genres, id);
    assert(orders(by_genre())) by {
        assert forall|a: SeriesGenreRow, b: SeriesGenreRow| #[trigger]
            by_genre()(a, b) implies !by_genre()(b, a) by {
            lemma_precedes_total(a.genre@, b.genre@);
        }
        assert forall|a: SeriesGenreRow, b: SeriesGenreRow, c: SeriesGenreRow|
            !(#[trigger] by_genre()(b, a)) && !(#[trigger] by_genre()(c, b)) implies !by_genre()(
            c,
            a,
        ) by {
            lemma_precedes_total(a.genre@, b.genre@);
            lemma_precedes_total(b.genre@, c.genre@);
            lemma_precedes_total(a.genre@, c.genre@);
            if precedes(a.genre@, b.genre@) && precedes(b.genre@, c.genre@) {
                lemma_precedes_transitive(a.genre@, b.genre@, c.genre@);
            }
        }
    }
    crate::rows::law_sorted_is_permutation(own, by_genre());
    crate::rows::law_sorted_is_in_order(own, by_genre());
    assert forall|i: int, j: int| 0 <= i < j < names.len() implies !precedes(
        (#[trigger] names[j])@,
        (#[trigger] names[i])@,
    ) by {
        assert(!by_genre()(list[j], list[i]));
    }
    if names.contains(name) {
        let p = choose|p: int| 0 <= p < names.len() && names[p] == name;
        crate::rows::lemma_sorted_contains(own, by_genre(), list[p]);
        assert(list.contains(list[p]));
        lemma_filter_member(genres, genres_of(id), list[p]);
        let k = choose|k: int| 0 <= k < genres.len() && genres[k] == list[p];
        assert(genres[k].genre == name);
    }
    if exists|k: int|
        0 <= k < genres.len() && (#[trigger] genres[k]).series_id == id && genres[k].genre == name {
        let k = choose|k: int|
            0 <= k < genres.len() && (#[trigger] genres[k]).series_id == id && genres[k].genre
                == name;
        lemma_filter_member(genres, genres_of(id), genres[k]);
        assert(genres.contains(genres[k]));
        crate::rows::lemma_sorted_contains(own, by_genre(), genres[k]);
        let p = choose|p: int| 0 <= p < list.len() && list[p] == genres[k];
        assert(names[p] == name);
    }
}

/// What an entry of the library across sites says of its show: followed and watched
/// where one series is, as far as the series that is furthest, tagged as wanted
/// before discarded, and not tagged at all where it is followed or was watched.
pub proof fn law_entry_says_of_its_show(
    e: LibraryEntry,
    episodes: Seq<EpisodeRow>,
    members: Seq<SeriesRow>,
)
    requires
        members.len() > 0,
        entry_of(e, episodes, members),
    ensures
        e.followed <==> exists|m: int| 0 <= m < members.len() && (#[trigger] members[m]).followed,
        e.watched_externally <==> exists|m: int|
            0 <= m < members.len() && (#[trigger] members[m]).watched_externally,
        e.seen_watermark >= 0,
        forall|m: int|
            0 <= m < members.len() ==> watermark(episodes, (#[trigger] members[m]).id)
                <= e.seen_watermark,
        e.seen_watermark == 0 || exists|m: int|
            0 <= m < members.len() && watermark(episodes, (#[trigger] members[m]).id)
                == e.seen_watermark,
        e.followed || e.watched_externally ==> e.backlog_status is None,
        !e.followed && !e.watched_externally ==> (opt_text(e.backlog_status) == Some("want"@)
            <==> exists|m: int|
            0 <= m < members.len() && opt_text((#[trigger] members[m]).backlog_status) == Some(
                "want"@,
            )),
        exists|m: int| 0 <= m < members.len() && (#[trigger] members[m]).title == e.display_title,
        forall|m: int|
            0 <= m < members.len() ==> e.display_title@.len() <= (#[trigger] members[m]).title@.len(),
{
    let marks = members.map_values(|m: SeriesRow| watermark(episodes, m.id));
    law_max_of(marks);
    assert forall|m: int| 0 <= m < members.len() implies watermark(
        episodes,
        (#[trigger] members[m]).id,
    ) <= e.seen_watermark by {
        assert(marks[m] == watermark(episodes, members[m].id));
    }
    assert(marks.len() == members.len());
    let p = choose|p: int| 0 <= p < marks.len() && marks[p] == max_of(marks)->0;
    if e.seen_watermark != 0 {
        assert(watermark(episodes, members[p].id) == e.seen_watermark);
    }
    law_tags_merge(members);
    assert forall|m: int| 0 <= m < members.len() implies e.display_title@.len() <= (
    #[trigger] members[m]).title@.len() by {
        assert(!names_better(members[m].title@, e.display_title@));
    }
}

/// The tags of a show's series merge: wanted where one is, else discarded where one
/// is, else none; the order of the series does not count.
pub proof fn law_tags_merge(members: Seq<SeriesRow>)
    ensures
        opt_text(merged_tag(members)) == Some("want"@) <==> exists|m: int|
            0 <= m < members.len() && opt_text((#[trigger] members[m]).backlog_status) == Some(
                "want"@,
            ),
        opt_text(merged_tag(members)) == Some("discarded"@) <==> (forall|m: int|
            0 <= m < members.len() ==> opt_text((#[trigger] members[m]).backlog_status) != Some(
                "want"@,
            )) && exists|m: int|
            0 <= m < members.len() && opt_text((#[trigger] members[m]).backlog_status) == Some(
                "discarded"@,
            ),
        opt_text(merged_tag(members)) is Some ==> opt_text(merged_tag(members)) == Some("want"@)
            || opt_text(merged_tag(members)) == Some("discarded"@),
    decreases members.len(),
{
    reveal_strlit("want");
    reveal_strlit("discarded");
    assert("want"@.len() == 4 && "discarded"@.len() == 9);
    if members.len() > 0 {
        let init = members.drop_last();
        let n = members.len() - 1;
        law_tags_merge(init);
        assert forall|m: int| 0 <= m < init.len() implies #[trigger] init[m] == members[m] by {}
        if exists|m: int|
            0 <= m < members.len() && opt_text((#[trigger] members[m]).backlog_status) == Some(
                "want"@,
            ) {
            let m = choose|m: int|
                0 <= m < members.len() && opt_text((#[trigger] members[m]).backlog_status) == Some(
                    "want"@,
                );
            if m < n {
                assert(opt_text(init[m].backlog_status) == Some("want"@));
            }
        }
        if exists|m: int|
            0 <= m < init.len() && opt_text((#[trigger] init[m]).backlog_status) == Some("want"@) {
            let m = choose|m: int|
                0 <= m < init.len() && opt_text((#[trigger] init[m]).backlog_status) == Some(
                    "want"@,
                );
            assert(opt_text(members[m].backlog_status) == Some("want"@));
        }
        if exists|m: int|
            0 <= m < init.len() && opt_text((#[trigger] init[m]).backlog_status) == Some(
                "discarded"@,
            ) {
            let m = choose|m: int|
                0 <= m < init.len() && opt_text((#[trigger] init[m]).backlog_status) == Some(
                    "discarded"@,
                );
            assert(opt_text(members[m].backlog_status) == Some("discarded"@));
        }
        if exists|m: int|
            0 <= m < members.len() && opt_text((#[trigger] members[m]).backlog_status) == Some(
                "discarded"@,
            ) {
            let m = choose|m: int|
                0 <= m < members.len() && opt_text((#[trigger] members[m]).backlog_status) == Some(
                    "discarded"@,
                );
            if m < n {
                assert(opt_text(init[m].backlog_status) == Some("discarded"@));
            }
        }
        assert(opt_text(members[n].backlog_status) == opt_text(members.last().backlog_status));
    }
}

/// Of two names the shorter one is better, and of two of one length the first in
/// order.
pub proof fn law_better_name(a: Seq<char>, b: Seq<char>)
    ensures
        a.len() < b.len() ==> names_better(a, b) && !names_better(b, a),
        a.len() == b.len() && precedes(a, b) ==> names_better(a, b) && !names_better(b, a),
{
    lemma_precedes_total(a, b);
}

/// Followed entries are first, then those watched furthest, then by name.
pub proof fn law_entry_order(a: LibraryEntry, b: LibraryEntry)
    ensures
        a.followed && !b.followed ==> entry_before(a, b) && !entry_before(b, a),
        a.followed == b.followed && a.seen_watermark > b.seen_watermark ==> entry_before(a, b)
            && !entry_before(b, a),
        a.followed == b.followed && a.seen_watermark == b.seen_watermark && precedes(
            a.display_title@,
            b.display_title@,
        ) ==> entry_before(a, b) && !entry_before(b, a),
        !entry_before(a, a),
{
    lemma_precedes_total(a.display_title@, b.display_title@);
    lemma_precedes_total(a.display_title@, a.display_title@);
}

/// What a site lacks of the library: followed shows that no series of the site is
/// of.
pub proof fn law_missing_on_a_site(series: Seq<SeriesRow>, source_id: i64, e: LibraryEntry)
    ensures
        missing_on(series, source_id)(e) <==> e.followed && forall|k: int|
            0 <= k < series.len() && (#[trigger] series[k]).source_id == source_id ==> canon_of(
                series[k],
            ) != e.canon_key@,
{
    let hit = |s: SeriesRow| s.source_id == source_id;
    let text = |s: SeriesRow| canon_of(s);
    lemma_gathered(series, hit, text);
    assert(present_keys(series, source_id) == gathered(series, hit, text));
    let t = e.canon_key@;
    if carried(series, hit, text, t) {
        let k = choose|k: int|
            0 <= k < series.len() && hit(#[trigger] series[k]) && text(series[k]) == t;
        assert(series[k].source_id == source_id);
    } else {
        assert forall|k: int|
            0 <= k < series.len() && (#[trigger] series[k]).source_id == source_id implies canon_of(
            series[k],
        ) != t by {
            assert(hit(series[k]));
        }
    }
}

/// What was watched on one site is carried to the others: a series of a show that
/// was watched elsewhere and does not air is flagged; everything else about the
/// series stays, and so do all series that are of no such show.
pub proof fn law_watched_is_carried_over(before: Db, after: Db, now: Seq<char>, k: int, j: int)
    requires
        reconciled(before, after, now),
        0 <= k < before.series@.len(),
        0 <= j < before.series@.len(),
    ensures
        before.series@[j].watched_externally && same_show(before.series@[k], before.series@[j])
            && !before.series@[k].is_airing ==> after.series@[k].watched_externally,
        before.series@[k].is_airing ==> after.series@[k] == before.series@[k],
        (forall|i: int|
            0 <= i < before.series@.len() && same_show(
                before.series@[k],
                #[trigger] before.series@[i],
            ) ==> !before.series@[i].watched_externally) ==> after.series@[k] == before.series@[k],
        after.series@[k] == (SeriesRow {
            watched_externally: after.series@[k].watched_externally,
            ..before.series@[k]
        }),
        before.series@[k].watched_externally ==> after.series@[k] == before.series@[k],
{
    let s = before.series@[k];
    law_canon_identifies(s, before.series@[j]);
    law_canon_identifies(before.series@[j], s);
    if before.series@[j].watched_externally && same_show(s, before.series@[j]) {
        assert(completed(before.series@, s));
    }
    if completed(before.series@, s) {
        let i = choose|i: int|
            0 <= i < before.series@.len() && (#[trigger] before.series@[i]).watched_externally
                && canon_of(before.series@[i]) == canon_of(s);
        law_canon_identifies(s, before.series@[i]);
        law_canon_identifies(before.series@[i], s);
    }
}

/// The episodes of an airing series are marked where the show was watched elsewhere
/// and none of the series was seen; a time of watching that is known stays.
pub proof fn law_airing_is_caught_up(before: Db, after: Db, now: Seq<char>, k: int, j: int, e: int)
    requires
        before.well_formed(),
        reconciled(before, after, now),
        0 <= k < before.series@.len(),
        0 <= j < before.series@.len(),
        0 <= e < before.episodes@.len(),
        before.episodes@[e].series_id == before.series@[k].id,
    ensures
        before.series@[k].is_airing && !before.series@[k].watched_externally
            && before.series@[j].watched_externally && same_show(
            before.series@[k],
            before.series@[j],
        ) && seen_count_of(before.episodes@, before.series@[k].id) == 0 ==> after.episodes@[e].seen
            && (after.episodes@[e].seen_at matches Some(t) && t@ == match before.episodes@[e].seen_at {
            Some(old_time) => old_time@,
            None => now,
        }),
        !before.series@[k].is_airing ==> after.episodes@[e] == before.episodes@[e],
        seen_count_of(before.episodes@, before.series@[k].id) > 0 ==> after.episodes@[e]
            == before.episodes@[e],
        before.episodes@[e].seen ==> after.episodes@[e] == before.episodes@[e],
{
    let s = before.series@[k];
    let id = s.id;
    assert(series_at(before.series@, id) == Some(s)) by {
        let hit = crate::db::series::with_id(id);
        assert forall|i: int| 0 <= i < k implies !hit(#[trigger] before.series@[i]) by {}
        lemma_first_where_at(before.series@, hit, k);
    }
    law_canon_identifies(s, before.series@[j]);
    law_canon_identifies(before.series@[j], s);
    crate::rows::lemma_count_zero(before.episodes@, crate::db::episodes::of_series(id));
    assert(crate::db::episodes::of_series(id)(before.episodes@[e]));
    assert(total_of(before.episodes@, id) > 0);
    if seen_count_of(before.episodes@, id) == 0 {
        crate::rows::lemma_count_zero(before.episodes@, crate::db::series_lists::seen_of(id));
        assert(!crate::db::series_lists::seen_of(id)(before.episodes@[e]));
    }
    if before.series@[j].watched_externally && same_show(s, before.series@[j]) {
        assert(completed(before.series@, s));
    }
}

/// Which series a carrying-over changes: those of a show that was watched elsewhere
/// that were not themselves, unless they air and something of them was seen, or
/// nothing of them is there.
pub proof fn law_carried_over(series: Seq<SeriesRow>, episodes: Seq<EpisodeRow>, s: SeriesRow)
    ensures
        crate::db::library::carried_over(series, episodes)(s) <==> !s.watched_externally && (exists|
            k: int,
        |
            0 <= k < series.len() && (#[trigger] series[k]).watched_externally && same_show(
                s,
                series[k],
            )) && (s.is_airing ==> seen_count_of(episodes, s.id) == 0 && total_of(episodes, s.id)
            > 0),
{
    if completed(series, s) {
        let k = choose|k: int|
            0 <= k < series.len() && (#[trigger] series[k]).watched_externally && canon_of(series[k])
                == canon_of(s);
        law_canon_identifies(s, series[k]);
    }
    if exists|k: int|
        0 <= k < series.len() && (#[trigger] series[k]).watched_externally && same_show(
            s,
            series[k],
        ) {
        let k = choose|k: int|
            0 <= k < series.len() && (#[trigger] series[k]).watched_externally && same_show(
                s,
                series[k],
            );
        law_canon_identifies(s, series[k]);
        assert(completed(series, s));
    }
}

/// The library across sites has an entry for every show that is tracked, numbered
/// from one, under the show's key.
pub proof fn law_entries_of_shows(
    entries: Seq<LibraryEntry>,
    episodes: Seq<EpisodeRow>,
    shows: Seq<Seq<SeriesRow>>,
    g: int,
)
    requires
        crate::db::library::entries_of(entries, episodes, shows),
        0 <= g < shows.len(),
    ensures
        entries.len() == shows.len(),
        entries[g].id == g + 1,
        entries[g].canon_key@ == canon_of(shows[g][0]),
        entries[g].anilist_id == shows[g][0].anilist_id,
{
    assert(entry_of(entries[g], episodes, shows[g]));
}

/// The entries that a site lacks are in the order of the library, and none is left
/// out.
pub proof fn law_entries_are_in_order(entries: Seq<LibraryEntry>, e: LibraryEntry)
    ensures
        orders(crate::db::library::by_progress()),
        sorted(entries, crate::db::library::by_progress()).contains(e) <==> entries.contains(e),
        forall|i: int, j: int|
            0 <= i < j < entries.len() ==> !entry_before(
                #[trigger] sorted(entries, crate::db::library::by_progress())[j],
                #[trigger] sorted(entries, crate::db::library::by_progress())[i],
            ),
{
    let earlier = crate::db::library::by_progress();
    assert(orders(earlier)) by {
        assert forall|a: LibraryEntry, b: LibraryEntry| #[trigger] earlier(a, b) implies !earlier(
            b,
            a,
        ) by {
            lemma_precedes_total(a.display_title@, b.display_title@);
        }
        assert forall|a: LibraryEntry, b: LibraryEntry, c: LibraryEntry|
            !(#[trigger] earlier(b, a)) && !(#[trigger] earlier(c, b)) implies !earlier(c, a) by {
            let x = a.display_title@;
            let y = b.display_title@;
            let z = c.display_title@;
            lemma_precedes_total(x, y);
            lemma_precedes_total(y, z);
            lemma_precedes_total(x, z);
            if precedes(x, y) && precedes(y, z) {
                lemma_precedes_transitive(x, y, z);
            }
        }
    }
    law_sorted_holds_the_same(entries, earlier, e);
    let list = sorted(entries, earlier);
    assert forall|i: int, j: int| 0 <= i < j < entries.len() implies !entry_before(
        #[trigger] list[j],
        #[trigger] list[i],
    ) by {
        assert(!earlier(list[j], list[i]));
    }
}

/// Carrying over changes series and episodes and nothing else, and neither adds nor
/// takes away any.
pub proof fn law_carrying_over_keeps_the_rest(before: Db, after: Db, now: Seq<char>)
    requires
        reconciled(before, after, now),
    ensures
        after.series@.len() == before.series@.len(),
        after.episodes@.len() == before.episodes@.len(),
        after.sources == before.sources && after.settings == before.settings && after.catalog
            == before.catalog && after.catalog_genres == before.catalog_genres && after.library
            == before.library && after.series_genres == before.series_genres,
{
}

} // verus!
