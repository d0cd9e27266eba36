//! The followed shows, each once whatever sites it is on: their genres, kinds
//! and the nodes of their graph.

use vstd::prelude::*;
use crate::db::franchise::{law_shown_rather_orders, prefer_display_title, shown_rather};
use crate::db::grouping::{pick_rows, picked};
use crate::db::identity::{canon_key, canon_of};
use crate::db::library_list::canon_keys;
use crate::db::series::series_at;
use crate::db::series_lists::has_genre;
use crate::db::{
    copy_text, lemma_series_count, opt_text, text_is, Db, DbError, SeriesGenreRow, SeriesRow,
};
use crate::genres::{canonical, canonical_genre};
use crate::listing::{ascending, carries, how_many, label_views, list_text, tally, tallied};
use crate::models::{GenreAffinity, GenreStat, SeriesGraphNode, TypeStat};
use crate::rows::{
    as_groups, count_where, group_rows, groups, key_views, lemma_filter_none, lemma_filter_step,
    lemma_groups, sort_rows, sorted,
};
use crate::text::{chars_of, precedes, same_text, text_precedes};

verus! {

/// The condition of being followed.
pub open spec fn followed() -> spec_fn(SeriesRow) -> bool {
    |s: SeriesRow| s.followed
}

/// The followed shows, each as the list of its followed series.
pub open spec fn followed_shows(series: Seq<SeriesRow>) -> Seq<Seq<SeriesRow>> {
    let rows = series.filter(followed());
    groups(canon_keys(rows)).map_values(|g: Seq<int>| picked(rows, g))
}

/// The first kind that is known of a show.
pub open spec fn first_kind(members: Seq<SeriesRow>) -> Option<String>
    decreases members.len(),
{
    if members.len() == 0 {
        None
    } else {
        match first_kind(members.drop_last()) {
            Some(k) => Some(k),
            None => members.last().kind,
        }
    }
}

/// The first cover that is known of a show.
pub open spec fn first_cover(members: Seq<SeriesRow>) -> Option<String>
    decreases members.len(),
{
    if members.len() == 0 {
        None
    } else {
        match first_cover(members.drop_last()) {
            Some(c) => Some(c),
            None => members.last().cover_url,
        }
    }
}

/// Whether a title is the one among those of a show's series that is shown for
/// it.
pub open spec fn titled(members: Seq<SeriesRow>, title: Seq<char>) -> bool {
    &&& exists|k: int| 0 <= k < members.len() && (#[trigger] members[k]).title@ == title
    &&& forall|k: int|
        0 <= k < members.len() ==> !shown_rather((#[trigger] members[k]).title@, title)
}

/// Whether a show carries a genre on any of its sites.
pub open spec fn show_carries(db: Db, members: Seq<SeriesRow>, genre: Seq<char>) -> bool {
    exists|k: int|
        0 <= k < members.len() && has_genre(
            db.series_genres@,
            (#[trigger] members[k]).id,
            genre,
        )
}

/// A followed show.
#[derive(Debug, Clone, PartialEq)]
pub struct CanonicalFollowed {
    pub member_ids: Vec<i64>,
    pub display_title: String,
    pub kind: Option<String>,
    pub cover_url: Option<String>,
}

/// The ids of series.
pub open spec fn ids_of(members: Seq<SeriesRow>) -> Seq<i64> {
    members.map_values(|m: SeriesRow| m.id)
}

/// Whether a followed show is that of the given series.
pub open spec fn followed_of(c: CanonicalFollowed, members: Seq<SeriesRow>) -> bool {
    &&& c.member_ids@ == ids_of(members)
    &&& titled(members, c.display_title@)
    &&& c.kind == first_kind(members)
    &&& c.cover_url == first_cover(members)
}

/// The condition of carrying a genre.
pub open spec fn with_genre(db: Db, genre: Seq<char>) -> spec_fn(Seq<SeriesRow>) -> bool {
    |m: Seq<SeriesRow>| show_carries(db, m, genre)
}

/// The condition of being of a kind, which has a name.
pub open spec fn of_kind(kind: Seq<char>) -> spec_fn(Seq<SeriesRow>) -> bool {
    |m: Seq<SeriesRow>| kind.len() > 0 && opt_text(first_kind(m)) == Some(kind)
}

/// Whether a genre is counted.
pub open spec fn genre_counted(list: Seq<GenreStat>, genre: Seq<char>) -> bool {
    exists|i: int| 0 <= i < list.len() && (#[trigger] list[i]).genre@ == genre
}

/// Whether a list counts the followed shows by genre: every genre that some show
/// carries, once, the most frequent first and equal ones by name.
pub open spec fn genre_stats_of(list: Seq<GenreStat>, db: Db) -> bool {
    let shows = followed_shows(db.series@);
    &&& forall|i: int, j: int|
        0 <= i < j < list.len() ==> (#[trigger] list[i]).count > (#[trigger] list[j]).count
            || list[i].count == list[j].count && precedes(list[i].genre@, list[j].genre@)
    &&& forall|i: int|
        0 <= i < list.len() ==> (#[trigger] list[i]).count == count_where(
            shows,
            with_genre(db, list[i].genre@),
        )
    &&& forall|t: Seq<char>| #[trigger]
        genre_counted(list, t) <==> count_where(shows, with_genre(db, t)) > 0
}

/// Whether a kind is counted.
pub open spec fn kind_counted(list: Seq<TypeStat>, kind: Seq<char>) -> bool {
    exists|i: int| 0 <= i < list.len() && (#[trigger] list[i]).kind@ == kind
}

/// Whether a list counts the followed shows by kind: every kind that some show
/// is of, once, the most frequent first and equal ones by name.
pub open spec fn type_stats_of(list: Seq<TypeStat>, db: Db) -> bool {
    let shows = followed_shows(db.series@);
    &&& forall|i: int, j: int|
        0 <= i < j < list.len() ==> (#[trigger] list[i]).count > (#[trigger] list[j]).count
            || list[i].count == list[j].count && precedes(list[i].kind@, list[j].kind@)
    &&& forall|i: int|
        0 <= i < list.len() ==> (#[trigger] list[i]).count == count_where(
            shows,
            of_kind(list[i].kind@),
        )
    &&& forall|t: Seq<char>| #[trigger]
        kind_counted(list, t) <==> count_where(shows, of_kind(t)) > 0
}

/// Two lists of the same length of which each place satisfies its condition in
/// the one exactly when it does in the other hold equally many such places.
proof fn lemma_count_same<A, B>(
    a: Seq<A>,
    p: spec_fn(A) -> bool,
    b: Seq<B>,
    q: spec_fn(B) -> bool,
)
    requires
        a.len() == b.len(),
        forall|i: int| 0 <= i < a.len() ==> p(#[trigger] a[i]) == q(b[i]),
    ensures
        count_where(a, p) == count_where(b, q),
    decreases a.len(),
{
    if a.len() > 0 {
        let x = a.drop_last();
        let y = b.drop_last();
        assert(a =~= x.push(a.last()));
        assert(b =~= y.push(b.last()));
        assert forall|i: int| 0 <= i < x.len() implies p(#[trigger] x[i]) == q(y[i]) by {
            assert(x[i] == a[i]);
        }
        lemma_count_same(x, p, y, q);
        x.lemma_filter_push(a.last(), p);
        y.lemma_filter_push(b.last(), q);
        assert(p(a[a.len() - 1]) == q(b[b.len() - 1]));
    } else {
        lemma_filter_none(a, p);
        lemma_filter_none(b, q);
        assert(a =~= a.take(0));
        assert(b =~= b.take(0));
    }
}

impl Db {
    /// The followed show of the given series.
    fn followed_show(members: &Vec<SeriesRow>) -> (r: CanonicalFollowed)
        requires
            members@.len() > 0,
        ensures
            followed_of(r, members@),
    {
        let mut member_ids: Vec<i64> = Vec::new();
        let mut title = members[0].title.clone();
        let mut kind: Option<String> = None;
        let mut cover_url: Option<String> = None;
        let ghost mut best: int = 0;
        let mut i: usize = 0;
        assert(members@.take(0) =~= Seq::empty());
        while i < members.len()
            invariant
                i <= members@.len(),
                0 <= best < members@.len(),
                title@ == members@[best].title@,
                forall|k: int|
                    0 <= k < i ==> !shown_rather((#[trigger] members@[k]).title@, title@),
                member_ids@ == ids_of(members@.take(i as int)),
                kind == first_kind(members@.take(i as int)),
                cover_url == first_cover(members@.take(i as int)),
            decreases members@.len() - i,
        {
            let m = &members[i];
            let ghost before = members@.take(i as int);
            proof {
                assert(members@.take(i + 1) =~= before.push(*m));
                assert(before.push(*m).drop_last() =~= before);
                assert(ids_of(before.push(*m)) =~= ids_of(before).push(m.id));
            }
            member_ids.push(m.id);
            if kind.is_none() {
                kind = copy_text(&m.kind);
            }
            if cover_url.is_none() {
                cover_url = copy_text(&m.cover_url);
            }
            let better: bool = prefer_display_title(m.title.as_str(), title.as_str());
            proof {
                law_shown_rather_orders(m.title@, m.title@, m.title@);
                if better {
                    assert forall|k: int| 0 <= k < i implies !shown_rather(
                        (#[trigger] members@[k]).title@,
                        m.title@,
                    ) by {
                        law_shown_rather_orders(m.title@, title@, members@[k].title@);
                        law_shown_rather_orders(members@[k].title@, m.title@, title@);
                    }
                    best = i as int;
                }
            }
            if better {
                title = m.title.clone();
            }
            i += 1;
        }
        assert(members@.take(i as int) =~= members@);
        CanonicalFollowed { member_ids, display_title: title, kind, cover_url }
    }

    /// The followed shows, each once whatever sites it is on.
    pub fn group_followed_canonically(&self) -> (r: Result<Vec<CanonicalFollowed>, DbError>)
        requires
            self.well_formed(),
        ensures
            r is Ok,
            r->Ok_0@.len() == followed_shows(self.series@).len(),
            r->Ok_0@.len() <= i64::MAX,
            forall|g: int|
                0 <= g < r->Ok_0@.len() ==> #[trigger] followed_of(
                    r->Ok_0@[g],
                    followed_shows(self.series@)[g],
                ) && followed_shows(self.series@)[g].len() > 0,
    {
        let ghost hit = followed();
        let mut rows: Vec<SeriesRow> = Vec::new();
        let mut keys: Vec<String> = Vec::new();
        let mut i: usize = 0;
        proof {
            lemma_filter_none(self.series@, hit);
            assert(key_views(keys@) =~= canon_keys(rows@));
        }
        while i < self.series.len()
            invariant
                i <= self.series@.len(),
                hit == followed(),
                rows@ == self.series@.take(i as int).filter(hit),
                key_views(keys@) == canon_keys(rows@),
            decreases self.series@.len() - i,
        {
            proof {
                lemma_filter_step(self.series@, hit, i as int);
            }
            let s = &self.series[i];
            if s.followed {
                let key = canon_key(s.anilist_id, s.title.as_str());
                let ghost before = rows@;
                let ghost before_keys = keys@;
                keys.push(key);
                rows.push(s.copy());
                proof {
                    assert(canon_keys(before.push(*s)) =~= canon_keys(before).push(canon_of(*s)));
                    assert(key_views(before_keys.push(key)) =~= key_views(before_keys).push(key@));
                }
            }
            i += 1;
        }
        proof {
            lemma_filter_none(self.series@, hit);
            self.series@.lemma_filter_len(hit);
            lemma_series_count(self.series@);
        }
        let shows = group_rows(&keys);
        let ghost want = followed_shows(self.series@);
        let ghost gs = groups(canon_keys(rows@));
        proof {
            lemma_groups(canon_keys(rows@));
            assert(canon_keys(rows@).len() == rows@.len());
        }
        let mut out: Vec<CanonicalFollowed> = Vec::new();
        let mut g: usize = 0;
        while g < shows.len()
            invariant
                g <= shows@.len(),
                shows@.len() <= i64::MAX,
                rows@ == self.series@.filter(followed()),
                gs == groups(canon_keys(rows@)),
                as_groups(shows@) == gs,
                want == followed_shows(self.series@),
                canon_keys(rows@).len() == rows@.len(),
                forall|h: int| 0 <= h < gs.len() ==> (#[trigger] gs[h]).len() > 0,
                forall|h: int, m: int|
                    0 <= h < gs.len() && 0 <= m < gs[h].len() ==> 0 <= #[trigger] gs[h][m]
                        < canon_keys(rows@).len(),
                out@.len() == g,
                forall|h: int|
                    0 <= h < g ==> #[trigger] followed_of(out@[h], want[h]) && want[h].len() > 0,
            decreases shows@.len() - g,
        {
            proof {
                assert(gs[g as int] == as_groups(shows@)[g as int]);
                assert(gs[g as int].len() == shows@[g as int]@.len());
                assert forall|k: int| 0 <= k < shows@[g as int]@.len() implies
                    #[trigger] shows@[g as int]@[k] < rows@.len() by {
                    assert(gs[g as int][k] == shows@[g as int]@[k] as int);
                }
            }
            let members = pick_rows(&rows, &shows[g]);
            assert(members@ == want[g as int]);
            out.push(Self::followed_show(&members));
            g += 1;
        }
        Ok(out)
    }

    /// The genres of several series, in alphabetical order.
    fn genres_of_all(&self, ids: &Vec<i64>) -> (r: Vec<String>)
        ensures
            ascending(key_views(r@)),
            forall|t: Seq<char>| #[trigger]
                key_views(r@).contains(t) <==> exists|k: int|
                    0 <= k < ids@.len() && has_genre(self.series_genres@, #[trigger] ids@[k], t),
    {
        let ghost rows = self.series_genres@;
        let mut out: Vec<String> = Vec::new();
        let mut i: usize = 0;
        while i < ids.len()
            invariant
                i <= ids@.len(),
                rows == self.series_genres@,
                ascending(key_views(out@)),
                forall|t: Seq<char>| #[trigger]
                    key_views(out@).contains(t) <==> exists|k: int|
                        0 <= k < i && has_genre(rows, #[trigger] ids@[k], t),
            decreases ids@.len() - i,
        {
            let ghost had = key_views(out@);
            let id: i64 = ids[i];
            let mut j: usize = 0;
            while j < self.series_genres.len()
                invariant
                    j <= self.series_genres@.len(),
                    rows == self.series_genres@,
                    ascending(key_views(out@)),
                    forall|t: Seq<char>| #[trigger]
                        key_views(out@).contains(t) <==> had.contains(t) || has_genre(
                            rows.take(j as int),
                            id,
                            t,
                        ),
                decreases self.series_genres@.len() - j,
            {
                let ghost mid = key_views(out@);
                if self.series_genres[j].series_id == id {
                    list_text(&mut out, self.series_genres[j].genre.as_str());
                }
                proof {
                    assert forall|t: Seq<char>| #[trigger]
                        key_views(out@).contains(t) <==> had.contains(t) || has_genre(
                            rows.take(j + 1),
                            id,
                            t,
                        ) by {
                        let a = rows.take(j as int);
                        let b = rows.take(j + 1);
                        assert(mid.contains(t) <==> had.contains(t) || has_genre(a, id, t));
                        if has_genre(a, id, t) {
                            let k = choose|k: int|
                                0 <= k < a.len() && (#[trigger] a[k]).series_id == id
                                    && a[k].genre@ == t;
                            assert(b[k] == a[k]);
                        }
                        if has_genre(b, id, t) {
                            let k = choose|k: int|
                                0 <= k < b.len() && (#[trigger] b[k]).series_id == id
                                    && b[k].genre@ == t;
                            if k < a.len() {
                                assert(a[k] == b[k]);
                            }
                        }
                        assert(b[j as int] == rows[j as int]);
                    }
                }
                j += 1;
            }
            assert(rows.take(j as int) =~= rows);
            i += 1;
            proof {
                assert forall|t: Seq<char>| #[trigger]
                    key_views(out@).contains(t) <==> exists|k: int|
                        0 <= k < i && has_genre(rows, #[trigger] ids@[k], t) by {
                    if has_genre(rows, id, t) {
                        assert(has_genre(rows, ids@[i - 1], t));
                    }
                    if had.contains(t) {
                        let k = choose|k: int|
                            0 <= k < i - 1 && has_genre(rows, #[trigger] ids@[k], t);
                        assert(has_genre(rows, ids@[k], t));
                    }
                }
            }
        }
        out
    }

    /// The genres of a followed show.
    fn show_genres(&self, show: &CanonicalFollowed, Ghost(members): Ghost<Seq<SeriesRow>>) -> (r:
        Vec<String>)
        requires
            followed_of(*show, members),
        ensures
            ascending(key_views(r@)),
            forall|t: Seq<char>| #[trigger]
                key_views(r@).contains(t) <==> show_carries(*self, members, t),
    {
        let r = self.genres_of_all(&show.member_ids);
        proof {
            let ids = ids_of(members);
            assert forall|t: Seq<char>| #[trigger]
                key_views(r@).contains(t) <==> show_carries(*self, members, t) by {
                if key_views(r@).contains(t) {
                    let k = choose|k: int|
                        0 <= k < ids.len() && has_genre(
                            self.series_genres@,
                            #[trigger] ids[k],
                            t,
                        );
                    assert(has_genre(self.series_genres@, members[k].id, t));
                }
                if show_carries(*self, members, t) {
                    let k = choose|k: int|
                        0 <= k < members.len() && has_genre(
                            self.series_genres@,
                            (#[trigger] members[k]).id,
                            t,
                        );
                    assert(has_genre(self.series_genres@, ids[k], t));
                }
            }
        }
        r
    }

    /// How many followed shows carry each genre.
    pub fn get_genre_stats(&self) -> (r: Result<Vec<GenreStat>, DbError>)
        requires
            self.well_formed(),
        ensures
            r is Ok,
            genre_stats_of(r->Ok_0@, *self),
    {
        let list = match self.group_followed_canonically() {
            Ok(v) => v,
            Err(e) => {
                return Err(e);
            },
        };
        let ghost shows = followed_shows(self.series@);
        let mut labels: Vec<Vec<String>> = Vec::new();
        let mut g: usize = 0;
        while g < list.len()
            invariant
                g <= list@.len(),
                list@.len() == shows.len(),
                shows == followed_shows(self.series@),
                forall|h: int| 0 <= h < list@.len() ==> #[trigger] followed_of(list@[h], shows[h]),
                labels@.len() == g,
                forall|h: int, t: Seq<char>|
                    0 <= h < g ==> (#[trigger] key_views(labels@[h]@).contains(t) <==> show_carries(
                        *self,
                        shows[h],
                        t,
                    )),
            decreases list@.len() - g,
        {
            assert(followed_of(list@[g as int], shows[g as int]));
            labels.push(self.show_genres(&list[g], Ghost(shows[g as int])));
            g += 1;
        }
        let counts = tally(&labels);
        let ghost all = label_views(labels@);
        proof {
            assert forall|t: Seq<char>| #[trigger] how_many(all, t) == count_where(
                shows,
                with_genre(*self, t),
            ) by {
                assert forall|h: int| 0 <= h < all.len() implies carries(t)(#[trigger] all[h])
                    == with_genre(*self, t)(shows[h]) by {
                    assert(all[h] == key_views(labels@[h]@));
                }
                lemma_count_same(all, carries(t), shows, with_genre(*self, t));
            }
        }
        let mut out: Vec<GenreStat> = Vec::new();
        let mut i: usize = 0;
        while i < counts.len()
            invariant
                i <= counts@.len(),
                out@.len() == i,
                forall|k: int|
                    0 <= k < i ==> (#[trigger] out@[k]).genre == counts@[k].label && out@[k].count
                        == counts@[k].count,
            decreases counts@.len() - i,
        {
            out.push(GenreStat { genre: counts[i].label.clone(), count: counts[i].count });
            i += 1;
        }
        proof {
            assert forall|k: int| 0 <= k < out@.len() implies (#[trigger] out@[k]).count
                == count_where(shows, with_genre(*self, out@[k].genre@)) by {
                assert(counts@[k].count == how_many(all, counts@[k].label@));
            }
            assert forall|a: int, b: int| 0 <= a < b < out@.len() implies (#[trigger] out@[a]).count
                > (#[trigger] out@[b]).count || out@[a].count == out@[b].count && precedes(
                out@[a].genre@,
                out@[b].genre@,
            ) by {
                assert(crate::listing::counted_before(counts@[a], counts@[b]));
            }
            assert forall|t: Seq<char>| #[trigger]
                genre_counted(out@, t) <==> count_where(shows, with_genre(*self, t)) > 0 by {
                assert(tallied(counts@, t) <==> how_many(all, t) > 0);
                if genre_counted(out@, t) {
                    let k = choose|k: int| 0 <= k < out@.len() && (#[trigger] out@[k]).genre@ == t;
                    assert(counts@[k].label@ == t);
                }
                if tallied(counts@, t) {
                    let k = choose|k: int|
                        0 <= k < counts@.len() && (#[trigger] counts@[k]).label@ == t;
                    assert(out@[k].genre@ == t);
                }
            }
        }
        Ok(out)
    }

    /// How many followed shows are of each kind. Shows of no known kind do not
    /// count.
    pub fn get_type_stats(&self) -> (r: Result<Vec<TypeStat>, DbError>)
        requires
            self.well_formed(),
        ensures
            r is Ok,
            type_stats_of(r->Ok_0@, *self),
    {
        let list = match self.group_followed_canonically() {
            Ok(v) => v,
            Err(e) => {
                return Err(e);
            },
        };
        let ghost shows = followed_shows(self.series@);
        let mut labels: Vec<Vec<String>> = Vec::new();
        let mut g: usize = 0;
        while g < list.len()
            invariant
                g <= list@.len(),
                list@.len() == shows.len(),
                shows == followed_shows(self.series@),
                forall|h: int| 0 <= h < list@.len() ==> #[trigger] followed_of(list@[h], shows[h]),
                labels@.len() == g,
                forall|h: int, t: Seq<char>|
                    0 <= h < g ==> (#[trigger] key_views(labels@[h]@).contains(t) <==> of_kind(t)(
                        shows[h],
                    )),
            decreases list@.len() - g,
        {
            assert(followed_of(list@[g as int], shows[g as int]));
            let mut label: Vec<String> = Vec::new();
            if let Some(k) = &list[g].kind {
                if !same_text(k.as_str(), "") {
                    label.push(k.clone());
                    assert(key_views(label@)[0] == k@);
                }
            }
            proof {
                reveal_strlit("");
                let kind = list@[g as int].kind;
                if kind is Some {
                    assert(kind->Some_0@ == ""@ <==> kind->Some_0@.len() == 0) by {
                        if kind->Some_0@.len() == 0 {
                            assert(kind->Some_0@ =~= ""@);
                        }
                    }
                }
                assert forall|t: Seq<char>| #[trigger]
                    key_views(label@).contains(t) <==> of_kind(t)(shows[g as int]) by {
                    if key_views(label@).contains(t) {
                        let k = choose|k: int| 0 <= k < label@.len() && key_views(label@)[k] == t;
                        assert(k == 0);
                    }
                }
            }
            labels.push(label);
            g += 1;
        }
        let counts = tally(&labels);
        let ghost all = label_views(labels@);
        proof {
            assert forall|t: Seq<char>| #[trigger] how_many(all, t) == count_where(
                shows,
                of_kind(t),
            ) by {
                assert forall|h: int| 0 <= h < all.len() implies carries(t)(#[trigger] all[h])
                    == of_kind(t)(shows[h]) by {
                    assert(all[h] == key_views(labels@[h]@));
                }
                lemma_count_same(all, carries(t), shows, of_kind(t));
            }
        }
        let mut out: Vec<TypeStat> = Vec::new();
        let mut i: usize = 0;
        while i < counts.len()
            invariant
                i <= counts@.len(),
                out@.len() == i,
                forall|k: int|
                    0 <= k < i ==> (#[trigger] out@[k]).kind == counts@[k].label && out@[k].count
                        == counts@[k].count,
            decreases counts@.len() - i,
        {
            out.push(TypeStat { kind: counts[i].label.clone(), count: counts[i].count });
            i += 1;
        }
        proof {
            assert forall|k: int| 0 <= k < out@.len() implies (#[trigger] out@[k]).count
                == count_where(shows, of_kind(out@[k].kind@)) by {
                assert(counts@[k].count == how_many(all, counts@[k].label@));
            }
            assert forall|a: int, b: int| 0 <= a < b < out@.len() implies (#[trigger] out@[a]).count
                > (#[trigger] out@[b]).count || out@[a].count == out@[b].count && precedes(
                out@[a].kind@,
                out@[b].kind@,
            ) by {
                assert(crate::listing::counted_before(counts@[a], counts@[b]));
            }
            assert forall|t: Seq<char>| #[trigger]
                kind_counted(out@, t) <==> count_where(shows, of_kind(t)) > 0 by {
                assert(tallied(counts@, t) <==> how_many(all, t) > 0);
                if kind_counted(out@, t) {
                    let k = choose|k: int| 0 <= k < out@.len() && (#[trigger] out@[k]).kind@ == t;
                    assert(counts@[k].label@ == t);
                }
                if tallied(counts@, t) {
                    let k = choose|k: int|
                        0 <= k < counts@.len() && (#[trigger] counts@[k]).label@ == t;
                    assert(out@[k].kind@ == t);
                }
            }
        }
        Ok(out)
    }
}

/// How much a series says for its genres, in half points: most for one that is
/// followed, less for one that is wanted, and against them for one that was
/// passed over.
pub open spec fn half_points_of(s: SeriesRow) -> int {
    if s.followed {
        4
    } else if opt_text(s.backlog_status) == Some("want"@) {
        2
    } else if opt_text(s.backlog_status) == Some("discarded"@) {
        -3
    } else {
        0
    }
}

/// The name under which a tag is scored: its canonical genre where it has one,
/// the tag itself otherwise.
pub open spec fn scored_name(tag: Seq<char>) -> Seq<char> {
    match canonical(tag) {
        Some(g) => g,
        None => tag,
    }
}

/// Whether a genre mark is of a series of the site that was decided on, and is
/// scored under a name.
pub open spec fn scores(db: Db, source_id: i64, g: SeriesGenreRow, name: Seq<char>) -> bool {
    &&& series_at(db.series@, g.series_id) matches Some(s) && s.source_id == source_id
        && half_points_of(s) != 0
    &&& scored_name(g.genre@) == name
}

/// The half points of a name over the first `n` genre marks.
pub open spec fn points(db: Db, source_id: i64, name: Seq<char>, n: int) -> int
    decreases n,
{
    if n <= 0 {
        0
    } else {
        let g = db.series_genres@[n - 1];
        points(db, source_id, name, n - 1) + if scores(db, source_id, g, name) {
            half_points_of(series_at(db.series@, g.series_id)->Some_0)
        } else {
            0
        }
    }
}

/// Whether a name is scored at all.
pub open spec fn scored(db: Db, source_id: i64, name: Seq<char>) -> bool {
    exists|k: int|
        0 <= k < db.series_genres@.len() && scores(
            db,
            source_id,
            #[trigger] db.series_genres@[k],
            name,
        )
}

/// The genres of a list of scores.
pub open spec fn scored_genres(list: Seq<GenreAffinity>) -> Seq<Seq<char>> {
    list.map_values(|a: GenreAffinity| a.genre@)
}

/// Whether a list holds every scored genre of a site once, in alphabetical
/// order, with its half points.
pub open spec fn affinity_of(list: Seq<GenreAffinity>, db: Db, source_id: i64) -> bool {
    &&& ascending(scored_genres(list))
    &&& forall|t: Seq<char>| #[trigger]
        scored_genres(list).contains(t) <==> scored(db, source_id, t)
    &&& forall|i: int|
        0 <= i < list.len() ==> (#[trigger] list[i]).half_points == points(
            db,
            source_id,
            list[i].genre@,
            db.series_genres@.len() as int,
        )
}

/// Whether a node is that of a show.
pub open spec fn node_of(n: SeriesGraphNode, db: Db, members: Seq<SeriesRow>) -> bool {
    &&& n.id == members[0].id
    &&& titled(members, n.title@)
    &&& n.cover_url == first_cover(members)
    &&& n.kind == first_kind(members)
    &&& ascending(key_views(n.genres@))
    &&& forall|t: Seq<char>| #[trigger]
        key_views(n.genres@).contains(t) <==> show_carries(db, members, t)
}

/// Whether nodes are those of the followed shows, in their order.
pub open spec fn nodes_of(nodes: Seq<SeriesGraphNode>, db: Db) -> bool {
    let shows = followed_shows(db.series@);
    &&& nodes.len() == shows.len()
    &&& forall|g: int| 0 <= g < nodes.len() ==> #[trigger] node_of(nodes[g], db, shows[g])
}

/// The order of nodes by title.
pub open spec fn by_node_title() -> spec_fn(SeriesGraphNode, SeriesGraphNode) -> bool {
    |a: SeriesGraphNode, b: SeriesGraphNode| precedes(a.title@, b.title@)
}

/// Whether a list holds the nodes of all followed shows, by title.
pub open spec fn graph_of(list: Seq<SeriesGraphNode>, db: Db) -> bool {
    exists|nodes: Seq<SeriesGraphNode>| #[trigger]
        nodes_of(nodes, db) && list == sorted(nodes, by_node_title())
}

fn node_before(a: &SeriesGraphNode, b: &SeriesGraphNode) -> (r: bool)
    ensures
        r == by_node_title()(*a, *b),
{
    text_precedes(&chars_of(a.title.as_str()), &chars_of(b.title.as_str()))
}

/// How much a series says for its genres.
fn half_points(s: &SeriesRow) -> (r: i64)
    ensures
        r == half_points_of(*s),
        -3 <= r <= 4,
{
    if s.followed {
        4
    } else if text_is(&s.backlog_status, "want") {
        2
    } else if text_is(&s.backlog_status, "discarded") {
        -3
    } else {
        0
    }
}

/// The name under which a tag is scored.
fn name_of_tag(tag: &str) -> (r: String)
    ensures
        r@ == scored_name(tag@),
{
    match canonical_genre(tag) {
        Some(g) => g.to_owned(),
        None => tag.to_owned(),
    }
}

impl Db {
    /// How much each genre is liked on a site, by what was decided on the series
    /// that carry it. Tags of one canonical genre count together; genres that no
    /// series carries that was decided on do not appear.
    pub fn get_genre_affinity(&self, source_id: i64) -> (r: Result<Vec<GenreAffinity>, DbError>)
        requires
            4 * self.series_genres@.len() <= i64::MAX,
        ensures
            r is Ok,
            affinity_of(r->Ok_0@, *self, source_id),
    {
        let ghost rows = self.series_genres@;
        let mut names: Vec<String> = Vec::new();
        let mut i: usize = 0;
        while i < self.series_genres.len()
            invariant
                i <= rows.len(),
                rows == self.series_genres@,
                ascending(key_views(names@)),
                forall|t: Seq<char>| #[trigger]
                    key_views(names@).contains(t) <==> exists|k: int|
                        0 <= k < i && scores(*self, source_id, #[trigger] rows[k], t),
            decreases rows.len() - i,
        {
            let ghost had = key_views(names@);
            let g = &self.series_genres[i];
            if let Some(j) = self.find_series(g.series_id) {
                if self.series[j].source_id == source_id && half_points(&self.series[j]) != 0 {
                    let name = name_of_tag(g.genre.as_str());
                    list_text(&mut names, name.as_str());
                }
            }
            i += 1;
            proof {
                assert forall|t: Seq<char>| #[trigger]
                    key_views(names@).contains(t) <==> exists|k: int|
                        0 <= k < i && scores(*self, source_id, #[trigger] rows[k], t) by {
                    if had.contains(t) {
                        let k = choose|k: int|
                            0 <= k < i - 1 && scores(*self, source_id, #[trigger] rows[k], t);
                        assert(scores(*self, source_id, rows[k], t));
                    }
                    if scores(*self, source_id, rows[i - 1], t) {
                        assert(rows[i - 1] == *g);
                    }
                    if exists|k: int| 0 <= k < i && scores(*self, source_id, #[trigger] rows[k], t) {
                        let k = choose|k: int|
                            0 <= k < i && scores(*self, source_id, #[trigger] rows[k], t);
                        if k < i - 1 {
                            assert(had.contains(t));
                        }
                    }
                }
            }
        }
        let mut out: Vec<GenreAffinity> = Vec::new();
        let mut n: usize = 0;
        while n < names.len()
            invariant
                4 * self.series_genres@.len() <= i64::MAX,
                n <= names@.len(),
                out@.len() == n,
                forall|k: int|
                    0 <= k < n ==> (#[trigger] out@[k]).genre == names@[k] && out@[k].half_points
                        == points(
                        *self,
                        source_id,
                        names@[k]@,
                        self.series_genres@.len() as int,
                    ),
            decreases names@.len() - n,
        {
            let half: i64 = self.points_of(source_id, names[n].as_str());
            out.push(GenreAffinity { genre: names[n].clone(), half_points: half });
            n += 1;
        }
        proof {
            assert(scored_genres(out@) =~= key_views(names@));
            assert forall|t: Seq<char>| #[trigger]
                scored_genres(out@).contains(t) <==> scored(*self, source_id, t) by {
                assert(key_views(names@).contains(t) <==> scored(*self, source_id, t));
            }
        }
        Ok(out)
    }

    /// The half points of a genre.
    fn points_of(&self, source_id: i64, name: &str) -> (r: i64)
        requires
            4 * self.series_genres@.len() <= i64::MAX,
        ensures
            r == points(*self, source_id, name@, self.series_genres@.len() as int),
    {
        let mut half: i64 = 0;
        let mut i: usize = 0;
        while i < self.series_genres.len()
            invariant
                4 * self.series_genres@.len() <= i64::MAX,
                i <= self.series_genres@.len(),
                half == points(*self, source_id, name@, i as int),
                -3 * i <= half <= 4 * i,
            decreases self.series_genres@.len() - i,
        {
            let g = &self.series_genres[i];
            if let Some(j) = self.find_series(g.series_id) {
                if self.series[j].source_id == source_id {
                    let tag = name_of_tag(g.genre.as_str());
                    if same_text(tag.as_str(), name) {
                        half = half + half_points(&self.series[j]);
                    }
                }
            }
            i += 1;
        }
        half
    }

    /// The followed shows as nodes of the relationship graph, by title.
    pub fn get_stats_graph_data(&self) -> (r: Result<Vec<SeriesGraphNode>, DbError>)
        requires
            self.well_formed(),
        ensures
            r is Ok,
            graph_of(r->Ok_0@, *self),
    {
        let list = match self.group_followed_canonically() {
            Ok(v) => v,
            Err(e) => {
                return Err(e);
            },
        };
        let ghost shows = followed_shows(self.series@);
        let mut nodes: Vec<SeriesGraphNode> = Vec::new();
        let mut g: usize = 0;
        while g < list.len()
            invariant
                g <= list@.len(),
                list@.len() == shows.len(),
                shows == followed_shows(self.series@),
                forall|h: int|
                    0 <= h < list@.len() ==> #[trigger] followed_of(list@[h], shows[h])
                        && shows[h].len() > 0,
                nodes@.len() == g,
                forall|h: int| 0 <= h < g ==> #[trigger] node_of(nodes@[h], *self, shows[h]),
            decreases list@.len() - g,
        {
            assert(followed_of(list@[g as int], shows[g as int]));
            let genres = self.show_genres(&list[g], Ghost(shows[g as int]));
            let show = &list[g];
            nodes.push(
                SeriesGraphNode {
                    id: show.member_ids[0],
                    title: show.display_title.clone(),
                    cover_url: copy_text(&show.cover_url),
                    genres,
                    kind: copy_text(&show.kind),
                },
            );
            g += 1;
        }
        assert(nodes_of(nodes@, *self));
        Ok(sort_rows(nodes, node_before, Ghost(by_node_title())))
    }
}

} // verus!
