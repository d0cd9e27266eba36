//! What is stored: that it is found again, and that nothing else changes.

use vstd::prelude::*;
use crate::db::catalog::only_catalog;
use crate::db::episodes::{
    address_clash, at_url, episode_inserted, next_episode_id, numbered, refreshed, stored, urls_of,
};
use crate::db::series::{
    carried_as, carried_taken, followed_as, for_history, for_link, known_series, newly_stored,
    next_series_id, other_slugged, placeholder, relinked, rescanned, series_upserted, slug_clash,
    slugged, stored_placeholder, tagged_as, titled, twins, unfollowed_with_id, watched_as, with_id,
};
use crate::db::series_lists::{
    by_title, deleted, followed_elsewhere, followed_empty, followed_on, fresh_genres, genre_added,
    genres_added, has_genre, listed, merged, tagged, watched_on,
};
use crate::db::settings::{
    flag_text, hides_upcoming, keyed, lines, listed_under, other_key, plain_item, setting,
    setting_made, stored_list,
};
use crate::db::sources::{at_base, next_source_id, next_upsert, source_id_is};
use crate::db::identity::same_show;
use crate::db::{
    only_episodes, only_library, only_series, only_series_genres, only_settings, only_sources,
    opt_text, Db, DbError, EpisodeRow, SeriesGenreRow, SeriesRow, SettingRow, SourceRow,
};
use crate::diff::unknown;
use crate::laws::lists::{law_first_is_first, lemma_filter_member};
use crate::listing::{
    ascending_nocase, counted_before, first_uses, how_many, tallied, tally_of, Tally,
};
use crate::matching::normalized;
use crate::models::{Episode, Series};
use crate::rows::{
    first_where, law_max_of, law_sorted_is_in_order, law_sorted_is_permutation,
    lemma_sorted_contains, orders, sorted, updated,
};
use crate::startup::{chosen_site, copied};
use crate::text::{folded, lemma_precedes_total, lemma_precedes_transitive, precedes, starts_with};

verus! {

/// A new series' id is above all that are there.
pub proof fn law_next_series_id_is_new(series: Seq<SeriesRow>)
    ensures
        forall|k: int| 0 <= k < series.len() ==> (#[trigger] series[k]).id < next_series_id(series),
        series.len() == 0 ==> next_series_id(series) == 1,
{
    let ids = series.map_values(|s: SeriesRow| s.id as int);
    law_max_of(ids);
    assert forall|k: int| 0 <= k < series.len() implies (#[trigger] series[k]).id < next_series_id(
        series,
    ) by {
        assert(ids[k] == series[k].id);
    }
}

/// A new site's id, and the mark of the latest change to one, are above all that are
/// there.
pub proof fn law_next_source_is_new(sources: Seq<SourceRow>)
    ensures
        forall|k: int|
            0 <= k < sources.len() ==> (#[trigger] sources[k]).id < next_source_id(sources)
                && sources[k].upserted < next_upsert(sources),
        sources.len() == 0 ==> next_source_id(sources) == 1 && next_upsert(sources) == 1,
{
    let ids = sources.map_values(|s: SourceRow| s.id as int);
    let marks = sources.map_values(|s: SourceRow| s.upserted as int);
    law_max_of(ids);
    law_max_of(marks);
    assert forall|k: int| 0 <= k < sources.len() implies (#[trigger] sources[k]).id
        < next_source_id(sources) && sources[k].upserted < next_upsert(sources) by {
        assert(ids[k] == sources[k].id);
        assert(marks[k] == sources[k].upserted);
    }
}

/// A series is known by its slug on its site. Where no series has the slug it is
/// known by its title, unless it is a placeholder, or what has the title is one.
pub proof fn law_known_series(series: Seq<SeriesRow>, source_id: i64, s: Series)
    ensures
        known_series(series, source_id, s) matches Some(row) ==> series.contains(row)
            && row.source_id == source_id,
        (exists|k: int|
            0 <= k < series.len() && (#[trigger] series[k]).source_id == source_id
                && series[k].slug@ == s.slug@) ==> (known_series(series, source_id, s) matches Some(
            row,
        ) && row.slug@ == s.slug@),
        (forall|k: int|
            0 <= k < series.len() && (#[trigger] series[k]).source_id == source_id
                ==> series[k].slug@ != s.slug@) ==> {
            &&& starts_with(s.slug@, "anilist-"@) ==> known_series(series, source_id, s) is None
            &&& known_series(series, source_id, s) matches Some(row) ==> normalized(row.title@)
                == normalized(s.title@) && !starts_with(folded(row.slug@), "anilist-"@)
            &&& !starts_with(s.slug@, "anilist-"@) && known_series(series, source_id, s) is None
                ==> forall|k: int|
                0 <= k < series.len() && (#[trigger] series[k]).source_id == source_id
                    && !starts_with(folded(series[k].slug@), "anilist-"@) ==> normalized(
                    series[k].title@,
                ) != normalized(s.title@)
        },
{
    let a = slugged(source_id, s.slug@);
    let b = titled(source_id, normalized(s.title@));
    law_first_is_first(series, a);
    law_first_is_first(series, b);
    if first_where(series, a) is Some {
        let x = first_where(series, a)->0;
        let i = choose|i: int|
            0 <= i < series.len() && #[trigger] series[i] == x && a(x) && forall|k: int|
                0 <= k < i ==> !a(#[trigger] series[k]);
        assert(series[i].source_id == source_id);
    }
    if first_where(series, b) is Some {
        let x = first_where(series, b)->0;
        let i = choose|i: int|
            0 <= i < series.len() && #[trigger] series[i] == x && b(x) && forall|k: int|
                0 <= k < i ==> !b(#[trigger] series[k]);
        assert(series[i].source_id == source_id);
    } else {
        assert forall|k: int|
            0 <= k < series.len() && (#[trigger] series[k]).source_id == source_id && !starts_with(
                folded(series[k].slug@),
                "anilist-"@,
            ) implies normalized(series[k].title@) != normalized(s.title@) by {
            assert(!b(series[k]));
        }
    }
    if exists|k: int|
        0 <= k < series.len() && (#[trigger] series[k]).source_id == source_id && series[k].slug@
            == s.slug@ {
        let k = choose|k: int|
            0 <= k < series.len() && (#[trigger] series[k]).source_id == source_id
                && series[k].slug@ == s.slug@;
        assert(a(series[k]));
    }
}

/// A scan takes over what the site says and leaves what the user decided.
pub proof fn law_rescan_keeps_decisions(before: SeriesRow, after: SeriesRow, s: Series)
    requires
        rescanned(before, after, s),
    ensures
        after.id == before.id,
        after.source_id == before.source_id,
        after.followed == before.followed,
        after.watched_externally == before.watched_externally,
        after.backlog_status == before.backlog_status,
        after.anilist_id == before.anilist_id,
        after.kind == before.kind,
        after.carried_seen_number == before.carried_seen_number,
        after.is_airing == s.is_airing,
        after.next_episode_at == s.next_episode_at,
        after.site_episode_count == s.site_episode_count,
        after.title@ == s.title@ && after.slug@ == s.slug@ && after.url@ == s.url@,
        opt_text(after.cover_url) == opt_text(s.cover_url),
{
}

/// A series that is new is not followed, not watched, not tagged and not linked.
pub proof fn law_new_series_is_undecided(row: SeriesRow, id: int, source_id: i64, s: Series)
    requires
        newly_stored(row, id, source_id, s),
    ensures
        !row.followed && !row.watched_externally && row.backlog_status is None
            && row.anilist_id is None && row.carried_seen_number is None && row.kind is None
            && row.last_checked_at is None,
        row.id == id && row.source_id == source_id,
        row.title@ == s.title@ && row.slug@ == s.slug@ && row.url@ == s.url@,
        row.is_airing == s.is_airing,
{
}

/// A series that takes another's place keeps what was decided on either: it is
/// followed or watched where one of them was, and its own tag counts first.
pub proof fn law_merging_keeps_decisions(a: SeriesRow, s: SeriesRow)
    ensures
        merged(a, s).followed <==> a.followed || s.followed,
        merged(a, s).watched_externally <==> a.watched_externally || s.watched_externally,
        a.backlog_status is Some ==> merged(a, s).backlog_status == a.backlog_status,
        a.backlog_status is None ==> merged(a, s).backlog_status == s.backlog_status,
        merged(a, s) == (SeriesRow {
            followed: merged(a, s).followed,
            watched_externally: merged(a, s).watched_externally,
            backlog_status: merged(a, s).backlog_status,
            ..a
        }),
        merged(a, a) == a,
{
}

/// Deleting a series takes it, its episodes and its genres away, and nothing else.
pub proof fn law_deleting(
    before: Db,
    after: Db,
    id: i64,
    s: SeriesRow,
    e: EpisodeRow,
    g: SeriesGenreRow,
)
    requires
        deleted(before, after, id),
    ensures
        after.series@.contains(s) <==> before.series@.contains(s) && s.id != id,
        after.episodes@.contains(e) <==> before.episodes@.contains(e) && e.series_id != id,
        after.series_genres@.contains(g) <==> before.series_genres@.contains(g) && g.series_id
            != id,
        after.catalog == before.catalog,
        after.settings == before.settings,
        after.sources == before.sources,
{
    lemma_filter_member(before.series@, crate::db::series_lists::other_series(id), s);
    lemma_filter_member(before.episodes@, crate::db::series_lists::other_episodes(id), e);
    lemma_filter_member(before.series_genres@, crate::db::series_lists::other_genres(id), g);
}

/// The genres that are new to a series: those of a list that it lacks, each once.
pub proof fn law_fresh_genres(
    before: Seq<SeriesGenreRow>,
    id: i64,
    genres: Seq<Seq<char>>,
    t: Seq<char>,
)
    ensures
        fresh_genres(before, id, genres).contains(t) <==> genres.contains(t) && !has_genre(
            before,
            id,
            t,
        ),
        fresh_genres(before, id, genres).no_duplicates(),
    decreases genres.len(),
{
    if genres.len() > 0 {
        let init = genres.drop_last();
        let last = genres.last();
        let had = fresh_genres(before, id, init);
        let now = fresh_genres(before, id, genres);
        law_fresh_genres(before, id, init, t);
        law_fresh_genres(before, id, init, last);
        assert(genres[genres.len() - 1] == last);
        if genres.contains(t) && t != last {
            let i = choose|i: int| 0 <= i < genres.len() && genres[i] == t;
            assert(init[i] == t);
        }
        if init.contains(t) {
            let i = choose|i: int| 0 <= i < init.len() && init[i] == t;
            assert(genres[i] == t);
        }
        if now != had {
            assert(now == had.push(last));
            assert(now[had.len() as int] == last);
            if had.contains(t) {
                let i = choose|i: int| 0 <= i < had.len() && had[i] == t;
                assert(now[i] == t);
            }
            if now.contains(t) && t != last {
                let i = choose|i: int| 0 <= i < now.len() && now[i] == t;
                assert(had[i] == t);
            }
            assert forall|i: int, j: int|
                0 <= i < now.len() && 0 <= j < now.len() && i != j implies now[i] != now[j] by {
                if i < had.len() && j < had.len() {
                    assert(had[i] != had[j]);
                } else if i < had.len() {
                    assert(had.contains(had[i]));
                } else {
                    assert(had.contains(had[j]));
                }
            }
        }
    } else {
        assert(!genres.contains(t));
        assert(!fresh_genres(before, id, genres).contains(t));
    }
}

/// After genres are added, a series has those that it had and the new ones, and
/// other series have what they had.
pub proof fn law_genres_are_added(
    before: Seq<SeriesGenreRow>,
    after: Seq<SeriesGenreRow>,
    id: i64,
    genres: Seq<Seq<char>>,
    other: i64,
    t: Seq<char>,
)
    requires
        genres_added(before, after, id, genres),
        other != id,
    ensures
        has_genre(after, id, t) <==> has_genre(before, id, t) || genres.contains(t),
        has_genre(after, other, t) <==> has_genre(before, other, t),
{
    let fresh = fresh_genres(before, id, genres);
    law_fresh_genres(before, id, genres, t);
    if has_genre(before, id, t) {
        let k = choose|k: int|
            0 <= k < before.len() && (#[trigger] before[k]).series_id == id && before[k].genre@ == t;
        assert(after[k] == before[k]);
    }
    if has_genre(before, other, t) {
        let k = choose|k: int|
            0 <= k < before.len() && (#[trigger] before[k]).series_id == other && before[k].genre@
                == t;
        assert(after[k] == before[k]);
    }
    if fresh.contains(t) {
        let i = choose|i: int| 0 <= i < fresh.len() && fresh[i] == t;
        assert(after[before.len() + i].genre@ == t);
    }
    if has_genre(after, id, t) {
        let k = choose|k: int|
            0 <= k < after.len() && (#[trigger] after[k]).series_id == id && after[k].genre@ == t;
        if k < before.len() {
            assert(after[k] == before[k]);
        } else {
            assert(fresh[k - before.len()] == t);
        }
    }
    if has_genre(after, other, t) {
        let k = choose|k: int|
            0 <= k < after.len() && (#[trigger] after[k]).series_id == other && after[k].genre@ == t;
        if k < before.len() {
            assert(after[k] == before[k]);
        }
    }
}

/// A list of series holds those that meet a condition, in the order of their titles.
pub proof fn law_listed(series: Seq<SeriesRow>, hit: spec_fn(SeriesRow) -> bool, k: int)
    ensures
        0 <= k < series.len() && hit(series[k]) ==> listed(series, hit).contains(series[k].shown()),
        forall|i: int, j: int|
            0 <= i < j < listed(series, hit).len() ==> !precedes(
                (#[trigger] listed(series, hit)[j]).title@,
                (#[trigger] listed(series, hit)[i]).title@,
            ),
        listed(series, hit).len() == crate::rows::count_where(series, hit),
{
    let own = series.filter(hit);
    let all = sorted(own, by_title());
    let list = listed(series, hit);
    assert(orders(by_title())) by {
        assert forall|a: SeriesRow, b: SeriesRow| #[trigger] by_title()(a, b) implies !by_title()(
            b,
            a,
        ) by {
            lemma_precedes_total(a.title@, b.title@);
        }
        assert forall|a: SeriesRow, b: SeriesRow, c: SeriesRow|
            !(#[trigger] by_title()(b, a)) && !(#[trigger] by_title()(c, b)) implies !by_title()(
            c,
            a,
        ) by {
            lemma_precedes_total(a.title@, b.title@);
            lemma_precedes_total(b.title@, c.title@);
            lemma_precedes_total(a.title@, c.title@);
            if precedes(a.title@, b.title@) && precedes(b.title@, c.title@) {
                lemma_precedes_transitive(a.title@, b.title@, c.title@);
            }
        }
    }
    law_sorted_is_permutation(own, by_title());
    law_sorted_is_in_order(own, by_title());
    assert forall|i: int, j: int| 0 <= i < j < list.len() implies !precedes(
        (#[trigger] list[j]).title@,
        (#[trigger] list[i]).title@,
    ) by {
        assert(!by_title()(all[j], all[i]));
    }
    if 0 <= k < series.len() && hit(series[k]) {
        lemma_filter_member(series, hit, series[k]);
        assert(series.contains(series[k]));
        lemma_sorted_contains(own, by_title(), series[k]);
        let i = choose|i: int| 0 <= i < all.len() && all[i] == series[k];
        assert(list[i] == series[k].shown());
    }
}

/// The lists of a site: the tagged series, those watched elsewhere, the followed
/// ones, and the followed ones without episodes. What is followed elsewhere is
/// followed on another site.
pub proof fn law_lists_of_a_site(
    source_id: i64,
    status: Seq<char>,
    episodes: Seq<EpisodeRow>,
    s: SeriesRow,
)
    ensures
        tagged(source_id, status)(s) <==> s.source_id == source_id && (s.backlog_status matches Some(
            t,
        ) && t@ == status),
        watched_on(source_id)(s) <==> s.source_id == source_id && s.watched_externally,
        followed_on(source_id)(s) <==> s.source_id == source_id && s.followed,
        followed_elsewhere(source_id)(s) <==> s.source_id != source_id && s.followed,
        followed_empty(episodes, source_id)(s) <==> s.source_id == source_id && s.followed
            && forall|k: int| 0 <= k < episodes.len() ==> (#[trigger] episodes[k]).series_id != s.id,
{
}

/// A setting that is made leaves the others as they were.
pub proof fn law_other_settings_stay(
    before: Seq<SettingRow>,
    after: Seq<SettingRow>,
    key: Seq<char>,
    value: Seq<char>,
    other: Seq<char>,
)
    requires
        setting_made(before, after, key, value),
        other != key,
    ensures
        setting(after, other) == setting(before, other),
{
    law_first_is_first(before, keyed(other));
    law_first_is_first(after, keyed(other));
    if first_where(before, keyed(other)) is Some {
        let x = first_where(before, keyed(other))->0;
        let i = choose|i: int|
            0 <= i < before.len() && #[trigger] before[i] == x && keyed(other)(x) && forall|k: int|
                0 <= k < i ==> !keyed(other)(#[trigger] before[k]);
        assert(!keyed(key)(before[i]));
        if setting(before, key) is Some {
            assert(after[i] == before[i]);
            assert forall|k: int| 0 <= k < i implies !keyed(other)(#[trigger] after[k]) by {
                assert(!keyed(other)(before[k]));
            }
        } else {
            assert(after.drop_last()[i] == after[i]);
            assert forall|k: int| 0 <= k < i implies !keyed(other)(#[trigger] after[k]) by {
                assert(after.drop_last()[k] == after[k]);
                assert(!keyed(other)(before[k]));
            }
        }
        crate::rows::lemma_first_where_at(after, keyed(other), i);
    } else {
        assert forall|k: int| 0 <= k < after.len() implies !keyed(other)(#[trigger] after[k]) by {
            if k < before.len() {
                assert(!keyed(other)(before[k]));
                if setting(before, key) is Some {
                } else {
                    assert(after.drop_last()[k] == after[k]);
                }
            }
        }
    }
}

/// The lines of a text: a line break ends one and starts another, and a text without
/// one is a line.
pub proof fn law_lines(a: Seq<char>, b: Seq<char>)
    ensures
        lines(a.push('\n') + b) == lines(a) + lines(b),
        (forall|i: int| 0 <= i < b.len() ==> #[trigger] b[i] != '\n') ==> lines(b) == seq![b],
        lines(b).len() > 0,
    decreases b.len(),
{
    let s = a.push('\n') + b;
    if b.len() == 0 {
        assert(s =~= a.push('\n'));
        assert(s.drop_last() =~= a);
        assert(lines(a).push(Seq::empty()) =~= lines(a) + seq![Seq::<char>::empty()]);
        assert(b =~= Seq::<char>::empty());
    } else {
        let y = b.drop_last();
        law_lines(a, y);
        assert(s.drop_last() =~= a.push('\n') + y);
        assert(s.last() == b.last());
        let before = lines(y);
        let all = lines(a) + before;
        if b.last() == '\n' {
            assert(all.push(Seq::empty()) =~= lines(a) + before.push(Seq::empty()));
        } else {
            assert(all.last() == before.last());
            assert(all.drop_last().push(all.last().push(b.last())) =~= lines(a)
                + before.drop_last().push(before.last().push(b.last())));
        }
        if forall|i: int| 0 <= i < b.len() ==> #[trigger] b[i] != '\n' {
            assert forall|i: int| 0 <= i < y.len() implies #[trigger] y[i] != '\n' by {
                assert(y[i] == b[i]);
            }
            assert(b[b.len() - 1] != '\n');
            assert(y.push(b.last()) =~= b);
            assert(lines(b) =~= seq![b]);
        }
    }
}

/// Whether a slug is taken by another series of the same site.
pub proof fn law_slug_is_taken(series: Seq<SeriesRow>, id: i64, slug: Seq<char>, k: int)
    requires
        crate::db::series_keyed(series),
        0 <= k < series.len(),
        series[k].id == id,
    ensures
        slug_clash(series, id, slug) <==> exists|j: int|
            0 <= j < series.len() && j != k && (#[trigger] series[j]).source_id
                == series[k].source_id && series[j].slug@ == slug,
{
    let hit = crate::db::series::with_id(id);
    assert forall|i: int| 0 <= i < k implies !hit(#[trigger] series[i]) by {}
    crate::rows::lemma_first_where_at(series, hit, k);
    if exists|j: int|
        0 <= j < series.len() && j != k && (#[trigger] series[j]).source_id == series[k].source_id
            && series[j].slug@ == slug {
        let j = choose|j: int|
            0 <= j < series.len() && j != k && (#[trigger] series[j]).source_id
                == series[k].source_id && series[j].slug@ == slug;
        assert(series[j].id != id);
    }
}

/// A placeholder is named after its entry in the catalog.
pub proof fn law_placeholders(rest: Seq<char>, slug: Seq<char>)
    ensures
        placeholder("anilist-"@ + rest),
        placeholder(slug) ==> stored_placeholder(slug),
        placeholder(slug) ==> exists|r: Seq<char>| slug == #[trigger] ("anilist-"@ + r),
{
    let head = "anilist-"@;
    assert((head + rest).take(head.len() as int) =~= head);
    if placeholder(slug) {
        let n = head.len() as int;
        let r = slug.skip(n);
        assert(slug =~= slug.take(n) + r);
        reveal_strlit("anilist-");
        assert(folded(slug).take(n) =~= head) by {
            assert forall|i: int| 0 <= i < n implies folded(slug).take(n)[i] == head[i] by {
                assert(slug.take(n)[i] == slug[i]);
            }
        }
    }
}

/// What the history shows of a series, and what linking needs of it.
pub proof fn law_rows_for_other_screens(s: SeriesRow)
    ensures
        for_history(s).title == s.title,
        for_history(s).poster_url == s.cover_url,
        for_history(s).backlog_status == s.backlog_status,
        for_history(s).watched_externally == s.watched_externally,
        for_history(s).url == s.url,
        for_link(s).id == s.id,
        for_link(s).source_id == s.source_id,
        for_link(s).slug == s.slug,
        for_link(s).anilist_id == s.anilist_id,
        for_link(s).followed == s.followed,
        for_link(s).backlog_status == s.backlog_status,
        for_link(s).watched_externally == s.watched_externally,
        forall|other: SeriesRow| #[trigger] twins(s)(other) <==> same_show(s, other),
{
}

/// A link to another page changes the page and what it shows, and no decision.
pub proof fn law_relinking_keeps_decisions(
    before: SeriesRow,
    after: SeriesRow,
    slug: Seq<char>,
    url: Seq<char>,
    cover_url: Option<Seq<char>>,
    kind: Seq<char>,
)
    requires
        relinked(before, after, slug, url, cover_url, kind),
    ensures
        after.slug@ == slug && after.url@ == url && opt_text(after.cover_url) == cover_url
            && opt_text(after.kind) == Some(kind),
        after.id == before.id && after.followed == before.followed && after.backlog_status
            == before.backlog_status && after.watched_externally == before.watched_externally
            && after.anilist_id == before.anilist_id && after.title == before.title
            && after.source_id == before.source_id,
{
}

/// What a scan finds that is new: the episodes whose number is not known, all of
/// them.
pub proof fn law_new_episodes(scraped: Seq<Episode>, known: Set<Seq<char>>, e: Episode)
    ensures
        scraped.filter(unknown(known)).contains(e) <==> scraped.contains(e) && !known.contains(
            e.number@,
        ),
{
    lemma_filter_member(scraped, unknown(known), e);
}

/// The first uses of texts: every text that is used, once.
pub proof fn law_first_uses(texts: Seq<Seq<char>>, t: Seq<char>)
    ensures
        first_uses(texts).contains(t) <==> texts.contains(t),
        first_uses(texts).no_duplicates(),
        texts.len() > 0 ==> first_uses(texts).len() > 0 && first_uses(texts)[0] == texts[0],
    decreases texts.len(),
{
    if texts.len() > 0 {
        let init = texts.drop_last();
        let last = texts.last();
        let had = first_uses(init);
        let now = first_uses(texts);
        law_first_uses(init, t);
        law_first_uses(init, last);
        assert(texts[texts.len() - 1] == last);
        if texts.contains(t) && t != last {
            let i = choose|i: int| 0 <= i < texts.len() && texts[i] == t;
            assert(init[i] == t);
        }
        if init.contains(t) {
            let i = choose|i: int| 0 <= i < init.len() && init[i] == t;
            assert(texts[i] == t);
        }
        if !had.contains(last) {
            assert(now[had.len() as int] == last);
            if had.contains(t) {
                let i = choose|i: int| 0 <= i < had.len() && had[i] == t;
                assert(now[i] == t);
            }
            if now.contains(t) && t != last {
                let i = choose|i: int| 0 <= i < now.len() && now[i] == t;
                assert(had[i] == t);
            }
            assert forall|i: int, j: int|
                0 <= i < now.len() && 0 <= j < now.len() && i != j implies now[i] != now[j] by {
                if i < had.len() && j < had.len() {
                    assert(had[i] != had[j]);
                } else if i < had.len() {
                    assert(had.contains(had[i]));
                } else {
                    assert(had.contains(had[j]));
                }
            }
        }
        if init.len() == 0 {
            assert(now[0] == last);
        } else {
            assert(init[0] == texts[0]);
        }
    }
}

/// A tally counts every label that is used, from the most used down; labels used as
/// often are in order.
pub proof fn law_tally(r: Seq<Tally>, labels: Seq<Seq<Seq<char>>>, k: int, t: Seq<char>)
    requires
        tally_of(r, labels),
        0 <= k < labels.len(),
        labels[k].contains(t),
    ensures
        exists|i: int| 0 <= i < r.len() && (#[trigger] r[i]).label@ == t,
        forall|i: int, j: int|
            0 <= i < j < r.len() ==> (#[trigger] r[i]).count >= (#[trigger] r[j]).count && (
            r[i].count == r[j].count ==> precedes(r[i].label@, r[j].label@)),
        forall|i: int|
            0 <= i < r.len() ==> 1 <= (#[trigger] r[i]).count <= labels.len() && r[i].count
                == crate::rows::count_where(labels, |l: Seq<Seq<char>>| l.contains(r[i].label@)),
{
    let hit = crate::listing::carries(t);
    crate::rows::lemma_count_zero(labels, hit);
    assert(hit(labels[k]));
    assert(how_many(labels, t) > 0);
    assert(tallied(r, t));
    assert forall|i: int, j: int| 0 <= i < j < r.len() implies (#[trigger] r[i]).count >= (
    #[trigger] r[j]).count && (r[i].count == r[j].count ==> precedes(r[i].label@, r[j].label@)) by {
        assert(counted_before(r[i], r[j]));
    }
    assert forall|i: int| 0 <= i < r.len() implies 1 <= (#[trigger] r[i]).count <= labels.len()
        && r[i].count == crate::rows::count_where(
        labels,
        |l: Seq<Seq<char>>| l.contains(r[i].label@),
    ) by {
        crate::rows::lemma_count_zero(labels, crate::listing::carries(r[i].label@));
        assert(crate::listing::carries(r[i].label@) =~= (|l: Seq<Seq<char>>|
            l.contains(r[i].label@)));
    }
}

/// A yes or a no that was stored is read back; without one, or with any other text,
/// nothing is left out.
pub proof fn law_flag_is_read_back(before: Seq<SettingRow>, after: Seq<SettingRow>, flag: bool)
    ensures
        setting_made(before, after, "hide_upcoming_releases"@, flag_text(flag)) ==> hides_upcoming(
            after,
        ) == flag,
        setting(before, "hide_upcoming_releases"@) is None ==> !hides_upcoming(before),
        setting(before, "hide_upcoming_releases"@) matches Some(v) && v@ != "true"@
            ==> !hides_upcoming(before),
{
    reveal_strlit("true");
    reveal_strlit("false");
    assert("true"@.len() == 4 && "false"@.len() == 5);
    if setting_made(before, after, "hide_upcoming_releases"@, flag_text(flag)) {
        crate::db::settings::law_setting_read_back(
            before,
            after,
            "hide_upcoming_releases"@,
            flag_text(flag),
        );
    }
}

/// A list that was stored under a key is read back; lists under other keys stay, and
/// without one there is nothing on the list.
pub proof fn law_list_is_read_back(
    before: Seq<SettingRow>,
    after: Seq<SettingRow>,
    key: Seq<char>,
    items: Seq<Seq<char>>,
    other: Seq<char>,
)
    requires
        setting_made(before, after, key, stored_list(items)),
        forall|k: int| 0 <= k < items.len() ==> plain_item(#[trigger] items[k]),
        other != key,
    ensures
        listed_under(after, key) == items,
        listed_under(after, other) == listed_under(before, other),
        setting(before, other) is None ==> listed_under(before, other).len() == 0,
{
    crate::db::settings::law_setting_read_back(before, after, key, stored_list(items));
    crate::db::settings::law_stored_list_read_back(items);
    law_other_settings_stay(before, after, key, stored_list(items), other);
}

/// The site that was chosen is active; where none was, it is the default one.
pub proof fn law_chosen_site(before: Seq<SettingRow>, after: Seq<SettingRow>, site: Seq<char>)
    ensures
        setting_made(before, after, "active_site_id"@, site) ==> chosen_site(after) == site,
        setting(before, "active_site_id"@) is None ==> chosen_site(before) == "animeytx"@,
{
    if setting_made(before, after, "active_site_id"@, site) {
        crate::db::settings::law_setting_read_back(before, after, "active_site_id"@, site);
    }
}

/// A database is never copied over one that is there, nor where there is none to
/// copy; else it is.
pub proof fn law_never_copied_over(older: Option<bool>)
    ensures
        !copied(true, older),
        !copied(false, None),
        !copied(false, Some(false)),
        copied(false, Some(true)),
{
}

/// What is shown of a series and of an episode is what is stored of it.
pub proof fn law_shown_rows(s: SeriesRow, e: EpisodeRow)
    ensures
        s.shown().id == s.id && s.shown().title == s.title && s.shown().url == s.url,
        s.shown().slug == s.slug && s.shown().cover_url == s.cover_url,
        s.shown().is_airing == s.is_airing && s.shown().followed == s.followed,
        s.shown().next_episode_at == s.next_episode_at && s.shown().site_episode_count
            == s.site_episode_count,
        e.shown().id == e.id && e.shown().series_id == e.series_id && e.shown().number == e.number,
        e.shown().title == e.title && e.shown().url == e.url && e.shown().released_at
            == e.released_at && e.shown().seen == e.seen,
{
}

/// A new episode is stored as it was found, with the time of storing and without one
/// of watching.
pub proof fn law_new_episode_is_stored(e: Episode, row: EpisodeRow, now: Seq<char>)
    requires
        stored(e, row, now),
    ensures
        row.series_id == e.series_id && row.number@ == e.number@ && row.url@ == e.url@,
        opt_text(row.title) == opt_text(e.title) && opt_text(row.released_at) == opt_text(
            e.released_at,
        ),
        row.seen == e.seen && row.added_at@ == now && row.seen_at is None,
{
}

/// An episode that is found again takes over its address, title and date, and stays
/// as it is otherwise; this fails exactly where another episode of the series is in
/// the way.
pub proof fn law_episode_is_refreshed(
    before: EpisodeRow,
    after: EpisodeRow,
    url: Seq<char>,
    title: Option<Seq<char>>,
    date: Option<Seq<char>>,
    rows: Seq<EpisodeRow>,
    id: i64,
    number: Seq<char>,
)
    ensures
        refreshed(before, after, url, title, date) ==> {
            &&& after.url@ == url && opt_text(after.title) == title && opt_text(after.released_at)
                == date
            &&& after.id == before.id && after.series_id == before.series_id && after.number
                == before.number
            &&& after.seen == before.seen && after.seen_at == before.seen_at && after.added_at
                == before.added_at
        },
        address_clash(rows, id, number, url) <==> exists|i: int, j: int|
            #![trigger rows[i], rows[j]]
            0 <= i < rows.len() && 0 <= j < rows.len() && i != j && rows[i].series_id == id
                && rows[i].number@ == number && rows[j].series_id == id && (rows[j].number@
                == number || rows[j].url@ == url),
{
    if address_clash(rows, id, number, url) {
        let (i, j) = choose|i: int, j: int|
            0 <= i < rows.len() && 0 <= j < rows.len() && i != j && numbered(id, number)(
                #[trigger] rows[i],
            ) && (#[trigger] rows[j]).series_id == id && (numbered(id, number)(rows[j])
                || rows[j].url@ == url);
        assert(rows[i].number@ == number && rows[j].series_id == id);
    }
    if exists|i: int, j: int|
        #![trigger rows[i], rows[j]]
        0 <= i < rows.len() && 0 <= j < rows.len() && i != j && rows[i].series_id == id
            && rows[i].number@ == number && rows[j].series_id == id && (rows[j].number@ == number
            || rows[j].url@ == url) {
        let (i, j) = choose|i: int, j: int|
            #![trigger rows[i], rows[j]]
            0 <= i < rows.len() && 0 <= j < rows.len() && i != j && rows[i].series_id == id
                && rows[i].number@ == number && rows[j].series_id == id && (rows[j].number@
                == number || rows[j].url@ == url);
        assert(numbered(id, number)(rows[i]));
        assert(rows[j].series_id == id);
    }
}

/// The addresses that a site's series have.
pub proof fn law_urls_of_a_site(series: Seq<SeriesRow>, source_id: i64, t: Seq<char>)
    ensures
        urls_of(series, source_id).contains(t) <==> exists|k: int|
            0 <= k < series.len() && (#[trigger] series[k]).source_id == source_id && series[k].url@
                == t,
{
    let hit = |s: SeriesRow| s.source_id == source_id;
    let text = |s: SeriesRow| s.url@;
    crate::rows::lemma_gathered(series, hit, text);
    assert(urls_of(series, source_id) == crate::rows::gathered(series, hit, text));
    if crate::rows::carried(series, hit, text, t) {
        let k = choose|k: int|
            0 <= k < series.len() && hit(#[trigger] series[k]) && text(series[k]) == t;
        assert(series[k].source_id == source_id);
    }
    if exists|k: int|
        0 <= k < series.len() && (#[trigger] series[k]).source_id == source_id && series[k].url@
            == t {
        let k = choose|k: int|
            0 <= k < series.len() && (#[trigger] series[k]).source_id == source_id && series[k].url@
                == t;
        assert(hit(series[k]));
        assert(crate::rows::carried(series, hit, text, t));
    }
}

/// An operation on one table leaves the others as they were.
pub proof fn law_other_tables_stay(a: Db, b: Db)
    ensures
        only_series(a, b) || only_episodes(a, b) || only_series_genres(a, b) || only_settings(a, b)
            || only_sources(a, b) || only_library(a, b) ==> b.catalog == a.catalog
            && b.catalog_genres == a.catalog_genres,
        only_catalog(a, b) ==> b.series == a.series && b.episodes == a.episodes && b.series_genres
            == a.series_genres && b.settings == a.settings && b.sources == a.sources && b.library
            == a.library,
        only_series(a, b) ==> b.episodes == a.episodes && b.series_genres == a.series_genres
            && b.settings == a.settings && b.sources == a.sources && b.library == a.library,
        only_episodes(a, b) ==> b.series == a.series && b.series_genres == a.series_genres
            && b.settings == a.settings && b.sources == a.sources && b.library == a.library,
        only_series_genres(a, b) ==> b.series == a.series && b.episodes == a.episodes && b.settings
            == a.settings && b.sources == a.sources && b.library == a.library,
        only_settings(a, b) ==> b.series == a.series && b.episodes == a.episodes && b.series_genres
            == a.series_genres && b.sources == a.sources && b.library == a.library,
        only_sources(a, b) ==> b.series == a.series && b.episodes == a.episodes && b.series_genres
            == a.series_genres && b.settings == a.settings && b.library == a.library,
        only_library(a, b) ==> b.series == a.series && b.episodes == a.episodes && b.series_genres
            == a.series_genres && b.settings == a.settings && b.sources == a.sources,
{
}

/// What rows are found by: their ids, a site by its address, an episode by its series
/// and address, or its series and number.
pub proof fn law_rows_are_found(
    source: SourceRow,
    s: SeriesRow,
    e: EpisodeRow,
    id: i64,
    other: i64,
    text: Seq<char>,
)
    ensures
        at_base(text)(source) <==> source.base_url@ == text,
        source_id_is(id)(source) <==> source.id == id,
        with_id(id)(s) <==> s.id == id,
        slugged(id, text)(s) <==> s.source_id == id && s.slug@ == text,
        other_slugged(id, text, other)(s) <==> s.source_id == id && s.slug@ == text && s.id != other,
        at_url(id, text)(e) <==> e.series_id == id && e.url@ == text,
        numbered(id, text)(e) <==> e.series_id == id && e.number@ == text,
{
}

/// A setting that is deleted is gone, and the others stay.
pub proof fn law_setting_is_deleted(settings: Seq<SettingRow>, key: Seq<char>, row: SettingRow)
    ensures
        setting(settings.filter(other_key(key)), key) is None,
        settings.filter(other_key(key)).contains(row) <==> settings.contains(row) && row.key@ != key,
{
    let left = settings.filter(other_key(key));
    lemma_filter_member(settings, other_key(key), row);
    law_first_is_first(left, keyed(key));
    assert forall|k: int| 0 <= k < left.len() implies !keyed(key)(#[trigger] left[k]) by {
        lemma_filter_member(settings, other_key(key), left[k]);
        assert(left.contains(left[k]));
    }
}

/// A genre that is added to a series is one of its genres; other series' genres and
/// those that it had stay.
pub proof fn law_genre_is_added(
    before: Seq<SeriesGenreRow>,
    after: Seq<SeriesGenreRow>,
    id: i64,
    genre: Seq<char>,
    other: i64,
    t: Seq<char>,
)
    requires
        genre_added(before, after, id, genre),
    ensures
        has_genre(after, other, t) <==> has_genre(before, other, t) || (other == id && t == genre),
{
    if has_genre(before, id, genre) {
    } else {
        let init = after.drop_last();
        let n = after.len() - 1;
        assert forall|k: int| 0 <= k < n implies #[trigger] after[k] == before[k] by {
            assert(init[k] == after[k]);
        }
        assert(after[n].series_id == id && after[n].genre@ == genre);
        if has_genre(before, other, t) {
            let k = choose|k: int|
                0 <= k < before.len() && (#[trigger] before[k]).series_id == other
                    && before[k].genre@ == t;
            assert(after[k] == before[k]);
        }
        if has_genre(after, other, t) {
            let k = choose|k: int|
                0 <= k < after.len() && (#[trigger] after[k]).series_id == other && after[k].genre@
                    == t;
            if k < n {
                assert(after[k] == before[k]);
            }
        }
    }
}

/// A list in order without regard to case holds no text twice.
pub proof fn law_order_without_case_is_strict(s: Seq<Seq<char>>, i: int, j: int)
    requires
        ascending_nocase(s),
        0 <= i < j < s.len(),
    ensures
        s[i] != s[j],
        !precedes(folded(s[j]), folded(s[i])),
{
    assert(crate::listing::before_nocase(s[i], s[j]));
    lemma_precedes_total(folded(s[i]), folded(s[j]));
    lemma_precedes_total(s[i], s[j]);
}

/// The keys of the tables: ids ascend from one, and no two rows are the same thing.
pub proof fn law_keys(db: Db, i: int, j: int)
    requires
        db.well_formed(),
        0 <= i < j,
    ensures
        j < db.series@.len() ==> 1 <= db.series@[i].id < db.series@[j].id && (
        db.series@[i].source_id != db.series@[j].source_id || db.series@[i].slug@
            != db.series@[j].slug@),
        j < db.episodes@.len() ==> 1 <= db.episodes@[i].id < db.episodes@[j].id && (
        db.episodes@[i].series_id != db.episodes@[j].series_id || db.episodes@[i].url@
            != db.episodes@[j].url@),
        j < db.sources@.len() ==> 1 <= db.sources@[i].id < db.sources@[j].id
            && db.sources@[i].base_url@ != db.sources@[j].base_url@,
        j < db.catalog@.len() ==> db.catalog@[i].id != db.catalog@[j].id,
        j < db.settings@.len() ==> db.settings@[i].key@ != db.settings@[j].key@,
        j < db.library@.len() ==> db.library@[i].canon_key@ != db.library@[j].canon_key@,
        j < db.series_genres@.len() && db.series_genres@[i].series_id
            == db.series_genres@[j].series_id ==> db.series_genres@[i].genre@
            != db.series_genres@[j].genre@,
        j < db.catalog_genres@.len() && db.catalog_genres@[i].anilist_id
            == db.catalog_genres@[j].anilist_id ==> db.catalog_genres@[i].genre@
            != db.catalog_genres@[j].genre@,
{
}

/// An episode at the address of another is not stored again. A new one is stored
/// under an id above all others, behind all that are there, which stay.
pub proof fn law_episode_is_inserted(
    before: Db,
    after: Db,
    e: Episode,
    now: Seq<char>,
    r: Result<i64, DbError>,
    k: int,
)
    requires
        episode_inserted(before, after, e, now, r),
        0 <= k < before.episodes@.len(),
    ensures
        before.episodes@[k].series_id == e.series_id && before.episodes@[k].url@ == e.url@
            ==> after == before && r is Ok,
        after.episodes@[k] == before.episodes@[k],
        r is Err ==> after == before,
        r matches Ok(id) ==> exists|j: int|
            0 <= j < after.episodes@.len() && (#[trigger] after.episodes@[j]).id == id
                && after.episodes@[j].series_id == e.series_id && after.episodes@[j].url@ == e.url@,
        after != before ==> (r matches Ok(id) && before.episodes@[k].id < id),
{
    let hit = at_url(e.series_id, e.url@);
    law_first_is_first(before.episodes@, hit);
    crate::laws::watching::law_next_episode_id_is_new(before.episodes@);
    if first_where(before.episodes@, hit) is Some {
        let x = first_where(before.episodes@, hit)->0;
        let i = choose|i: int|
            0 <= i < before.episodes@.len() && #[trigger] before.episodes@[i] == x && hit(x)
                && forall|k: int| 0 <= k < i ==> !hit(#[trigger] before.episodes@[k]);
        assert(after.episodes@[i].id == x.id);
    } else {
        assert(!hit(before.episodes@[k]));
        if next_episode_id(before.episodes@) <= i64::MAX {
            assert(after.episodes@.drop_last()[k] == after.episodes@[k]);
            let n = after.episodes@.len() - 1;
            assert(after.episodes@[n].id == r->Ok_0);
        }
    }
}

/// A series that is known is brought up to date, and no other changes. A new one is
/// stored under an id above all others, behind all that are there, which stay.
pub proof fn law_series_is_taken_over(
    before: Db,
    after: Db,
    source_id: i64,
    s: Series,
    r: Result<i64, DbError>,
    k: int,
)
    requires
        series_upserted(before, after, source_id, s, r),
        0 <= k < before.series@.len(),
    ensures
        r is Err ==> after == before,
        r matches Ok(id) && before.series@[k].id != id ==> after.series@[k] == before.series@[k],
        r matches Ok(id) && before.series@[k].id == id ==> rescanned(
            before.series@[k],
            after.series@[k],
            s,
        ),
        before.series@[k].source_id == source_id && before.series@[k].slug@ == s.slug@ ==> (
        r matches Ok(id) && after.series@.len() == before.series@.len()),
        after.series@.len() >= before.series@.len(),
{
    law_known_series(before.series@, source_id, s);
    law_next_series_id_is_new(before.series@);
    if known_series(before.series@, source_id, s) is None {
        if next_series_id(before.series@) <= i64::MAX {
            assert(after.series@.drop_last()[k] == after.series@[k]);
        }
    } else {
        let row = known_series(before.series@, source_id, s)->0;
        assert(with_id(row.id)(before.series@[k]) <==> before.series@[k].id == row.id);
    }
}

/// Following is carried to a series that is not followed yet, with how far the show
/// was watched; a series that is followed, and every other, stays as it is. What was
/// carried is taken once.
pub proof fn law_following_is_carried(
    before: Seq<SeriesRow>,
    after: Seq<SeriesRow>,
    id: i64,
    mark: i64,
    k: int,
)
    requires
        0 <= k < before.len(),
    ensures
        updated(before, after, unfollowed_with_id(id), carried_as(mark)) ==> {
            &&& before[k].id == id && !before[k].followed ==> after[k].followed
                && after[k].carried_seen_number == Some(mark)
            &&& before[k].id != id || before[k].followed ==> after[k] == before[k]
            &&& after[k] == (SeriesRow {
                followed: after[k].followed,
                carried_seen_number: after[k].carried_seen_number,
                ..before[k]
            })
        },
        updated(before, after, with_id(id), carried_taken()) ==> {
            &&& before[k].id == id ==> after[k].carried_seen_number is None
            &&& before[k].id != id ==> after[k] == before[k]
            &&& after[k] == (SeriesRow {
                carried_seen_number: after[k].carried_seen_number,
                ..before[k]
            })
        },
{
}

/// Following, watching and tagging change what they say on the series that they are
/// asked for, and nothing else.
pub proof fn law_decisions_change_one_series(
    before: Seq<SeriesRow>,
    after: Seq<SeriesRow>,
    id: i64,
    yes: bool,
    tag: Option<Seq<char>>,
    k: int,
)
    requires
        0 <= k < before.len(),
    ensures
        updated(before, after, with_id(id), followed_as(yes)) ==> {
            &&& before[k].id == id ==> after[k] == (SeriesRow { followed: yes, ..before[k] })
            &&& before[k].id != id ==> after[k] == before[k]
        },
        updated(before, after, with_id(id), watched_as(yes)) ==> {
            &&& before[k].id == id ==> after[k] == (SeriesRow {
                watched_externally: yes,
                ..before[k]
            })
            &&& before[k].id != id ==> after[k] == before[k]
        },
        updated(before, after, with_id(id), tagged_as(tag)) ==> {
            &&& before[k].id == id ==> opt_text(after[k].backlog_status) == tag
            &&& before[k].id != id ==> after[k] == before[k]
            &&& after[k] == (SeriesRow {
                backlog_status: after[k].backlog_status,
                ..before[k]
            })
        },
{
}

} // verus!
