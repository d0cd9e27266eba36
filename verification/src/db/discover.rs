//! What the catalog deck offers: entries that no one has decided on yet.

use vstd::prelude::*;
use crate::db::catalog::{anime_of, animes_of, decided, entry_carries, titles_of};
use crate::db::{opt_text, text_is, CatalogRow, Db, DbError, SeriesRow};
use crate::matching::{normalize_title, normalized};
use crate::models::{CatalogAnime, GenreAffinity};
use crate::recommend::{
    pick_recommended, picks, shares_fit, taste_scores, FormatAffinity,
};
use crate::rows::{
    count_where, lemma_count_zero, lemma_filter_none, lemma_filter_pairwise, lemma_filter_step,
};
use crate::swipe::{
    counted, exchanges, law_shuffled_is_permutation, mixed, shuffle, shuffled, Draws,
};
use crate::text::{chars_of, fold_chars, folded, same_chars};
use crate::text_set::TextSet;

verus! {

/// The least popularity of an offered entry.
pub const MIN_POPULARITY: i64 = 500;

/// How many entries are looked at for one card.
pub const BATCH_SIZE: usize = 150;

/// Whether a format is one of those that are offered.
pub open spec fn offered(format: Seq<char>) -> bool {
    format == "TV"@ || format == "MOVIE"@ || format == "OVA"@ || format == "ONA"@ || format
        == "SPECIAL"@
}

/// Whether a format is banned, ASCII letters counting alike in either case.
pub open spec fn banned(format: Seq<char>, banned_formats: Seq<String>) -> bool {
    exists|k: int|
        0 <= k < banned_formats.len() && folded((#[trigger] banned_formats[k])@) == folded(format)
}

/// Whether some series is linked to a catalog entry.
pub open spec fn linked(series: Seq<SeriesRow>, id: i64) -> bool {
    exists|k: int| 0 <= k < series.len() && (#[trigger] series[k]).anilist_id == Some(id)
}

/// The condition of being offered in a genre: of an offered format that is not
/// banned, popular enough, not linked to a series, and, where upcoming releases
/// are hidden, not known to be one.
pub open spec fn eligible(
    db: Db,
    genre: Seq<char>,
    banned_formats: Seq<String>,
    hide_upcoming: bool,
) -> spec_fn(CatalogRow) -> bool {
    |c: CatalogRow|
        {
            &&& entry_carries(db.catalog_genres@, c.id, genre)
            &&& opt_text(c.format) matches Some(f) && offered(f) && !banned(f, banned_formats)
            &&& c.popularity matches Some(p) && p >= MIN_POPULARITY
            &&& !linked(db.series@, c.id)
            &&& !(hide_upcoming && opt_text(c.status) == Some("NOT_YET_RELEASED"@))
        }
}

/// Whether one of an entry's titles has been decided on.
pub open spec fn engaged(c: CatalogRow, excluded: Set<Seq<char>>) -> bool {
    exists|k: int|
        0 <= k < titles_of(c).len() && excluded.contains(normalized(#[trigger] titles_of(c)[k]))
}

/// The condition of none of an entry's titles having been decided on.
pub open spec fn open_to(excluded: Set<Seq<char>>) -> spec_fn(CatalogRow) -> bool {
    |c: CatalogRow| !engaged(c, excluded)
}

/// The condition of one of an entry's titles having been decided on.
pub open spec fn decided_on(excluded: Set<Seq<char>>) -> spec_fn(CatalogRow) -> bool {
    |c: CatalogRow| engaged(c, excluded)
}

/// The places of a list.
pub open spec fn places_up_to(n: nat) -> Seq<usize> {
    Seq::new(n, |i: int| i as usize)
}

/// The first entries of a list in a random order.
pub open spec fn batch(candidates: Seq<CatalogRow>, seed: u64) -> Seq<CatalogRow> {
    let order = shuffled(places_up_to(candidates.len()), seed, candidates.len() - 1);
    let drawn = if order.len() > BATCH_SIZE { order.take(BATCH_SIZE as int) } else { order };
    drawn.map_values(|i: usize| candidates[i as int])
}

/// The entries that a card is picked from.
pub open spec fn survivors(
    db: Db,
    genre: Seq<char>,
    banned_formats: Seq<String>,
    excluded: Set<Seq<char>>,
    hide_upcoming: bool,
    seed: u64,
) -> Seq<CatalogRow> {
    batch(db.catalog@.filter(eligible(db, genre, banned_formats, hide_upcoming)), seed).filter(
        open_to(excluded),
    )
}

/// Whether a format is one of those that are offered and not banned.
fn format_offered(format: &str, banned_formats: &[String]) -> (r: bool)
    ensures
        r == (offered(format@) && !banned(format@, banned_formats@)),
{
    let name = chars_of(format);
    if !crate::text::spells(&name, "TV") && !crate::text::spells(&name, "MOVIE")
        && !crate::text::spells(&name, "OVA") && !crate::text::spells(&name, "ONA")
        && !crate::text::spells(&name, "SPECIAL") {
        return false;
    }
    let plain = fold_chars(&name);
    let mut i: usize = 0;
    while i < banned_formats.len()
        invariant
            i <= banned_formats@.len(),
            plain@ == folded(format@),
            forall|k: int| 0 <= k < i ==> folded((#[trigger] banned_formats@[k])@) != plain@,
        decreases banned_formats@.len() - i,
    {
        let other = fold_chars(&chars_of(banned_formats[i].as_str()));
        if same_chars(&other, &plain) {
            assert(folded(banned_formats@[i as int]@) == folded(format@));
            return false;
        }
        i += 1;
    }
    true
}

impl Db {
    /// Whether some series is linked to a catalog entry.
    fn is_linked(&self, id: i64) -> (r: bool)
        ensures
            r == linked(self.series@, id),
    {
        let mut i: usize = 0;
        while i < self.series.len()
            invariant
                i <= self.series@.len(),
                forall|k: int| 0 <= k < i ==> (#[trigger] self.series@[k]).anilist_id != Some(id),
            decreases self.series@.len() - i,
        {
            if let Some(a) = self.series[i].anilist_id {
                if a == id {
                    assert(self.series@[i as int].anilist_id == Some(id));
                    return true;
                }
            }
            i += 1;
        }
        false
    }

    /// Whether an entry is offered in a genre.
    fn is_eligible(
        &self,
        c: &CatalogRow,
        genre: &str,
        banned_formats: &[String],
        hide_upcoming: bool,
    ) -> (r: bool)
        ensures
            r == eligible(*self, genre@, banned_formats@, hide_upcoming)(*c),
    {
        let format_fits: bool = match &c.format {
            Some(f) => format_offered(f.as_str(), banned_formats),
            None => false,
        };
        let popular: bool = match c.popularity {
            Some(p) => p >= MIN_POPULARITY,
            None => false,
        };
        format_fits && popular && !(hide_upcoming && text_is(&c.status, "NOT_YET_RELEASED"))
            && self.entry_has_genre(c.id, genre) && !self.is_linked(c.id)
    }

    /// The entries that are offered in a genre.
    pub fn catalog_candidates(
        &self,
        genre: &str,
        banned_formats: &[String],
        hide_upcoming: bool,
    ) -> (r: Vec<CatalogRow>)
        ensures
            r@ == self.catalog@.filter(
                eligible(*self, genre@, banned_formats@, hide_upcoming),
            ),
    {
        let ghost hit = eligible(*self, genre@, banned_formats@, hide_upcoming);
        let mut out: Vec<CatalogRow> = Vec::new();
        let mut i: usize = 0;
        proof {
            lemma_filter_none(self.catalog@, hit);
        }
        while i < self.catalog.len()
            invariant
                i <= self.catalog@.len(),
                hit == eligible(*self, genre@, banned_formats@, hide_upcoming),
                out@ == self.catalog@.take(i as int).filter(hit),
            decreases self.catalog@.len() - i,
        {
            proof {
                lemma_filter_step(self.catalog@, hit, i as int);
            }
            if self.is_eligible(&self.catalog[i], genre, banned_formats, hide_upcoming) {
                out.push(self.catalog[i].copy());
            }
            i += 1;
        }
        proof {
            lemma_filter_none(self.catalog@, hit);
        }
        out
    }

    /// Whether one of an entry's titles has been decided on.
    fn is_engaged(c: &CatalogRow, excluded: &TextSet) -> (r: bool)
        ensures
            r == engaged(*c, excluded@),
    {
        let ghost titles = titles_of(*c);
        assert(titles[0] == c.title@);
        let mut found: bool = excluded.contains(normalize_title(c.title.as_str()).as_str());
        if let Some(t) = &c.title_romaji {
            assert(titles[1] == t@);
            if excluded.contains(normalize_title(t.as_str()).as_str()) {
                assert(excluded@.contains(normalized(titles[1])));
                found = true;
            }
        }
        if let Some(t) = &c.title_english {
            assert(titles[titles.len() - 1] == t@);
            if excluded.contains(normalize_title(t.as_str()).as_str()) {
                assert(excluded@.contains(normalized(titles[titles.len() - 1])));
                found = true;
            }
        }
        proof {
            assert(engaged(*c, excluded@) ==> found) by {
                if engaged(*c, excluded@) {
                    let k = choose|k: int|
                        0 <= k < titles.len() && excluded@.contains(
                            normalized(#[trigger] titles[k]),
                        );
                    assert(k == 0 || k == titles.len() - 1 || k == 1);
                }
            }
            if found && excluded@.contains(normalized(c.title@)) {
                assert(excluded@.contains(normalized(titles[0])));
            }
        }
        found
    }

    /// The first entries of a list in a random order, without those that have
    /// been decided on.
    fn draw_survivors(
        &self,
        candidates: &Vec<CatalogRow>,
        excluded: &TextSet,
        draws: &mut Draws,
    ) -> (r: Vec<CatalogAnime>)
        ensures
            animes_of(r@, *self, batch(candidates@, old(draws).count).filter(open_to(excluded@))),
            final(draws).count == counted(old(draws).count, exchanges(candidates@.len())),
    {
        let ghost seed = draws.count;
        let n: usize = candidates.len();
        let mut order: Vec<usize> = Vec::new();
        let mut i: usize = 0;
        while i < n
            invariant
                i <= n,
                order@.len() == i,
                forall|k: int| 0 <= k < i ==> #[trigger] order@[k] == k,
            decreases n - i,
        {
            order.push(i);
            i += 1;
        }
        assert(order@ =~= places_up_to(candidates@.len()));
        let ghost start = order@;
        shuffle(order.as_mut_slice(), draws);
        proof {
            lemma_order_in_bounds(candidates@.len(), seed);
        }
        if order.len() > BATCH_SIZE {
            order.truncate(BATCH_SIZE);
        }
        let ghost drawn = batch(candidates@, seed);
        assert(drawn =~= order@.map_values(|i: usize| candidates@[i as int]));
        let ghost hit = open_to(excluded@);
        let mut out: Vec<CatalogAnime> = Vec::new();
        let mut j: usize = 0;
        proof {
            lemma_filter_none(drawn, hit);
        }
        while j < order.len()
            invariant
                j <= order@.len(),
                drawn == order@.map_values(|i: usize| candidates@[i as int]),
                hit == open_to(excluded@),
                forall|k: int| 0 <= k < order@.len() ==> #[trigger] order@[k] < candidates@.len(),
                animes_of(out@, *self, drawn.take(j as int).filter(hit)),
            decreases order@.len() - j,
        {
            let ghost before = drawn.take(j as int).filter(hit);
            proof {
                lemma_filter_step(drawn, hit, j as int);
                assert(order@[j as int] < candidates@.len());
            }
            let c = &candidates[order[j]];
            assert(drawn[j as int] == *c);
            if !Self::is_engaged(c, excluded) {
                let ghost had = out@;
                out.push(self.to_anime(c));
                proof {
                    let now = before.push(*c);
                    assert forall|k: int| 0 <= k < out@.len() implies #[trigger] anime_of(
                        out@[k],
                        *self,
                        now[k],
                    ) by {
                        if k < had.len() {
                            assert(anime_of(had[k], *self, before[k]));
                        }
                    }
                }
            }
            j += 1;
        }
        proof {
            lemma_filter_none(drawn, hit);
        }
        out
    }

    /// The card of a genre that the numbers of a generator give, one that no one
    /// has decided on yet. With recommendations it is picked among those that fit
    /// best, without them it is the first of the random order. There is none only
    /// where all offered entries, or at least as many as are looked at for one
    /// card, have been decided on.
    pub fn random_catalog_anime_in_genre(
        &self,
        genre: &str,
        banned_formats: &[String],
        excluded_norm_titles: &TextSet,
        genre_affinity: &[GenreAffinity],
        formats: &[FormatAffinity],
        recommended: bool,
        hide_upcoming: bool,
        draws: &mut Draws,
    ) -> (r: Result<Option<CatalogAnime>, DbError>)
        requires
            shares_fit(formats@),
        ensures
            r is Ok,
            drawn(
                r->Ok_0,
                *self,
                genre@,
                banned_formats@,
                excluded_norm_titles@,
                genre_affinity@,
                formats@,
                recommended,
                hide_upcoming,
                old(draws).count,
                mixed(final(draws).count),
            ),
            final(draws).count == counted(
                old(draws).count,
                exchanges(
                    self.catalog@.filter(
                        eligible(*self, genre@, banned_formats@, hide_upcoming),
                    ).len(),
                ) + if recommended && r->Ok_0 is Some { 1nat } else { 0 },
            ),
            r->Ok_0 matches Some(a) ==> exists|k: int|
                0 <= k < self.catalog@.len() && #[trigger] anime_of(a, *self, self.catalog@[k])
                    && eligible(*self, genre@, banned_formats@, hide_upcoming)(self.catalog@[k])
                    && !engaged(self.catalog@[k], excluded_norm_titles@),
            r->Ok_0 is None ==> count_where(
                self.catalog@.filter(eligible(*self, genre@, banned_formats@, hide_upcoming)),
                decided_on(excluded_norm_titles@),
            ) >= BATCH_SIZE || forall|k: int|
                0 <= k < self.catalog@.len() && eligible(
                    *self,
                    genre@,
                    banned_formats@,
                    hide_upcoming,
                )(#[trigger] self.catalog@[k]) ==> engaged(
                    self.catalog@[k],
                    excluded_norm_titles@,
                ),
    {
        let ghost seed = draws.count;
        let candidates = self.catalog_candidates(genre, banned_formats, hide_upcoming);
        let mut list = self.draw_survivors(&candidates, excluded_norm_titles, draws);
        let ghost animes = list@;
        let picked: Option<CatalogAnime> = if recommended {
            pick_recommended(list, genre_affinity, formats, genre, draws)
        } else if list.len() == 0 {
            None
        } else {
            Some(list.swap_remove(0))
        };
        proof {
            let hit = eligible(*self, genre@, banned_formats@, hide_upcoming);
            let ex = excluded_norm_titles@;
            let rows = survivors(*self, genre@, banned_formats@, ex, hide_upcoming, seed);
            assert(self.catalog@.len() == self.catalog.len());
            lemma_survivors_are_entries(
                *self,
                genre@,
                banned_formats@,
                ex,
                hide_upcoming,
                seed,
            );
            assert(animes_of(animes, *self, rows));
            let card = picked;
            if card is Some {
                let a = card->0;
                if recommended {
                    let draw = mixed(draws.count);
                    let p = choose|p: int|
                        0 <= p < animes.len() && #[trigger] animes[p] == a && picks(
                            taste_scores(animes, genre_affinity@, formats@, genre@),
                            draw,
                            p,
                        );
                    assert(anime_of(animes[p], *self, rows[p]));
                    assert(recommended_card(a, animes, genre_affinity@, formats@, genre@, draw));
                } else {
                    assert(anime_of(animes[0], *self, rows[0]));
                }
            }
            match card {
                Some(a) => {
                    let p = choose|p: int|
                        0 <= p < rows.len() && #[trigger] anime_of(a, *self, rows[p]);
                    assert(self.catalog@.contains(rows[p]));
                    let k = choose|k: int| 0 <= k < self.catalog@.len() && self.catalog@[k] == rows[p];
                    assert(anime_of(a, *self, self.catalog@[k]));
                },
                None => {
                    if self.catalog@.filter(hit).len() <= BATCH_SIZE {
                        assert forall|k: int|
                            0 <= k < self.catalog@.len() && hit(
                                #[trigger] self.catalog@[k],
                            ) implies engaged(self.catalog@[k], ex) by {
                            lemma_small_pool_survives(*self, hit, ex, seed, k);
                        }
                    } else {
                        self.catalog@.lemma_filter_len(hit);
                        lemma_batch_decided(self.catalog@.filter(hit), ex, seed);
                    }
                },
            }
        }
        Ok(picked)
    }
}

/// A show that was decided on, on whatever site, is never offered again under a
/// title that normalizes to the same text: where all titles that
/// `engaged_series_titles` gives are excluded, an entry with such a title is
/// passed over.
pub proof fn law_decided_never_offered(
    db: Db,
    excluded: Set<Seq<char>>,
    k: int,
    c: CatalogRow,
    t: int,
)
    requires
        forall|i: int|
            0 <= i < db.series@.filter(decided()).len() ==> excluded.contains(
                normalized((#[trigger] db.series@.filter(decided())[i]).title@),
            ),
        0 <= k < db.series@.len(),
        decided()(db.series@[k]),
        0 <= t < titles_of(c).len(),
        normalized(titles_of(c)[t]) == normalized(db.series@[k].title@),
    ensures
        engaged(c, excluded),
{
    let rows = db.series@.filter(decided());
    db.series@.lemma_filter_contains(decided(), k);
    let i = choose|i: int| 0 <= i < rows.len() && rows[i] == db.series@[k];
    assert(excluded.contains(normalized(rows[i].title@)));
}

/// Whether a card is one that recommendations give.
pub open spec fn recommended_card(
    a: CatalogAnime,
    animes: Seq<CatalogAnime>,
    weights: Seq<GenreAffinity>,
    formats: Seq<FormatAffinity>,
    genre: Seq<char>,
    draw: u64,
) -> bool {
    exists|p: int|
        0 <= p < animes.len() && #[trigger] animes[p] == a && picks(
            taste_scores(animes, weights, formats, genre),
            draw,
            p,
        )
}

/// Whether a card is the one that a draw gives.
pub open spec fn card_of(
    a: CatalogAnime,
    db: Db,
    rows: Seq<CatalogRow>,
    weights: Seq<GenreAffinity>,
    formats: Seq<FormatAffinity>,
    genre: Seq<char>,
    recommended: bool,
    draw: u64,
) -> bool {
    &&& exists|p: int| 0 <= p < rows.len() && #[trigger] anime_of(a, db, rows[p])
    &&& if recommended {
        exists|animes: Seq<CatalogAnime>| #[trigger]
            animes_of(animes, db, rows) && recommended_card(
                a,
                animes,
                weights,
                formats,
                genre,
                draw,
            )
    } else {
        anime_of(a, db, rows[0])
    }
}

/// Whether a card, or that there is none, is what a seed and a draw give for a
/// genre.
pub open spec fn drawn(
    card: Option<CatalogAnime>,
    db: Db,
    genre: Seq<char>,
    banned_formats: Seq<String>,
    excluded: Set<Seq<char>>,
    weights: Seq<GenreAffinity>,
    formats: Seq<FormatAffinity>,
    recommended: bool,
    hide_upcoming: bool,
    seed: u64,
    draw: u64,
) -> bool {
    let rows = survivors(db, genre, banned_formats, excluded, hide_upcoming, seed);
    &&& card is None <==> rows.len() == 0
    &&& card matches Some(a) ==> card_of(
        a,
        db,
        rows,
        weights,
        formats,
        genre,
        recommended,
        draw,
    )
}

/// A random order of places holds every place once.
proof fn lemma_order_in_bounds(n: nat, seed: u64)
    requires
        n <= usize::MAX,
    ensures
        ({
            let order = shuffled(places_up_to(n), seed, n - 1);
            &&& order.len() == n
            &&& forall|k: int| 0 <= k < order.len() ==> #[trigger] order[k] < n
            &&& forall|p: usize| p < n ==> #[trigger] order.contains(p)
        }),
{
    broadcast use vstd::seq_lib::group_to_multiset_ensures;

    let start = places_up_to(n);
    let order = shuffled(start, seed, n - 1);
    law_shuffled_is_permutation(start, seed, n - 1);
    assert forall|k: int| 0 <= k < order.len() implies #[trigger] order[k] < n by {
        assert(order.contains(order[k]));
        assert(order.to_multiset().count(order[k]) > 0);
        assert(start.contains(order[k]));
        let m = choose|m: int| 0 <= m < start.len() && start[m] == order[k];
        assert(start[m] == m);
    }
    assert forall|p: usize| p < n implies #[trigger] order.contains(p) by {
        assert(start[p as int] == p);
        assert(start.contains(p));
        assert(start.to_multiset().count(p) > 0);
        assert(order.to_multiset().count(p) > 0);
    }
}

/// What a card is picked from are offered entries of the catalog that no one has
/// decided on.
proof fn lemma_survivors_are_entries(
    db: Db,
    genre: Seq<char>,
    banned_formats: Seq<String>,
    excluded: Set<Seq<char>>,
    hide_upcoming: bool,
    seed: u64,
)
    requires
        db.catalog@.len() <= usize::MAX,
    ensures
        forall|k: int|
            0 <= k < survivors(db, genre, banned_formats, excluded, hide_upcoming, seed).len()
                ==> {
                let c = #[trigger] survivors(
                    db,
                    genre,
                    banned_formats,
                    excluded,
                    hide_upcoming,
                    seed,
                )[k];
                &&& db.catalog@.contains(c)
                &&& eligible(db, genre, banned_formats, hide_upcoming)(c)
                &&& !engaged(c, excluded)
            },
{
    let hit = eligible(db, genre, banned_formats, hide_upcoming);
    let pool = db.catalog@.filter(hit);
    db.catalog@.lemma_filter_len(hit);
    let rows = survivors(db, genre, banned_formats, excluded, hide_upcoming, seed);
    let drawn = batch(pool, seed);
    lemma_order_in_bounds(pool.len(), seed);
    let anything = |c: CatalogRow| true;
    let related = |a: CatalogRow, b: CatalogRow| true;
    lemma_filter_pairwise(db.catalog@, hit, anything, related);
    lemma_filter_pairwise(drawn, open_to(excluded), anything, related);
    assert forall|k: int| 0 <= k < rows.len() implies {
        let c = #[trigger] rows[k];
        &&& db.catalog@.contains(c)
        &&& hit(c)
        &&& !engaged(c, excluded)
    } by {
        let c = rows[k];
        assert(drawn.contains(c));
        let m = choose|m: int| 0 <= m < drawn.len() && drawn[m] == c;
        let order = shuffled(places_up_to(pool.len()), seed, pool.len() - 1);
        assert(order[m] < pool.len());
        assert(c == pool[order[m] as int]);
    }
}

/// In a pool no larger than what is looked at for one card, an entry that no one
/// has decided on survives.
proof fn lemma_small_pool_survives(
    db: Db,
    hit: spec_fn(CatalogRow) -> bool,
    excluded: Set<Seq<char>>,
    seed: u64,
    k: int,
)
    requires
        0 <= k < db.catalog@.len(),
        hit(db.catalog@[k]),
        db.catalog@.filter(hit).len() <= BATCH_SIZE,
        batch(db.catalog@.filter(hit), seed).filter(open_to(excluded)).len() == 0,
    ensures
        engaged(db.catalog@[k], excluded),
{
    let pool = db.catalog@.filter(hit);
    let c = db.catalog@[k];
    db.catalog@.lemma_filter_contains(hit, k);
    assert(pool.contains(c));
    let p = choose|p: int| 0 <= p < pool.len() && pool[p] == c;
    lemma_order_in_bounds(pool.len(), seed);
    let order = shuffled(places_up_to(pool.len()), seed, pool.len() - 1);
    assert(order.contains(p as usize));
    let m = choose|m: int| 0 <= m < order.len() && order[m] == p as usize;
    let drawn = batch(pool, seed);
    assert(drawn[m] == c);
    lemma_count_zero(drawn, open_to(excluded));
    assert(!open_to(excluded)(drawn[m]));
}

/// The places below `n` at which a condition holds.
spec fn places_with(pool: Seq<CatalogRow>, hit: spec_fn(CatalogRow) -> bool, n: int) -> Set<int> {
    Set::new(|p: int| 0 <= p < n && hit(pool[p]))
}

proof fn lemma_places_counted(pool: Seq<CatalogRow>, hit: spec_fn(CatalogRow) -> bool, n: int)
    requires
        0 <= n <= pool.len(),
    ensures
        places_with(pool, hit, n).finite(),
        places_with(pool, hit, n).len() == count_where(pool.take(n), hit),
    decreases n,
{
    if n > 0 {
        lemma_places_counted(pool, hit, n - 1);
        lemma_filter_step(pool, hit, n - 1);
        if hit(pool[n - 1]) {
            assert(places_with(pool, hit, n) =~= places_with(pool, hit, n - 1).insert(n - 1));
        } else {
            assert(places_with(pool, hit, n) =~= places_with(pool, hit, n - 1));
        }
    } else {
        lemma_filter_none(pool, hit);
        assert(places_with(pool, hit, 0) =~= Set::empty());
    }
}

/// Where nothing of a batch is left, all that was looked at has been decided on.
proof fn lemma_batch_decided(pool: Seq<CatalogRow>, excluded: Set<Seq<char>>, seed: u64)
    requires
        BATCH_SIZE < pool.len() <= usize::MAX,
        batch(pool, seed).filter(open_to(excluded)).len() == 0,
    ensures
        count_where(pool, decided_on(excluded)) >= BATCH_SIZE,
{
    let n = pool.len() as int;
    let hit = decided_on(excluded);
    let start = places_up_to(pool.len());
    let order = shuffled(start, seed, n - 1);
    lemma_order_in_bounds(pool.len(), seed);
    law_shuffled_is_permutation(start, seed, n - 1);
    assert(start.no_duplicates());
    start.lemma_multiset_has_no_duplicates();
    assert(order.no_duplicates()) by {
        assert(order.to_multiset() == start.to_multiset());
        order.lemma_multiset_has_no_duplicates_conv();
    }
    let looked = order.take(BATCH_SIZE as int).map_values(|p: usize| p as int);
    assert(looked.no_duplicates());
    looked.unique_seq_to_set();
    let rows = batch(pool, seed);
    lemma_count_zero(rows, open_to(excluded));
    lemma_places_counted(pool, hit, n);
    assert(pool.take(n) =~= pool);
    assert forall|p: int| looked.to_set().contains(p) implies places_with(pool, hit, n).contains(
        p,
    ) by {
        let m = choose|m: int| 0 <= m < looked.len() && looked[m] == p;
        assert(looked[m] == order[m] as int);
        assert(rows[m] == pool[order[m] as int]);
        assert(!open_to(excluded)(rows[m]));
    }
    vstd::set_lib::lemma_len_subset(looked.to_set(), places_with(pool, hit, n));
}

} // verus!
