//! When a show was last watched and last added to.

use vstd::prelude::*;
use crate::db::episodes::of_series;
use crate::db::grouping::latest;
use crate::db::library_list::{
    item_for, item_of, last_added_of, last_seen_of, progress_of, Progress,
};
use crate::db::{opt_text, Db, EpisodeRow, SeriesRow};
use crate::laws::lists::lemma_filter_member;
use crate::models::LibraryItem;
use crate::text::{lemma_precedes_total, lemma_precedes_transitive, precedes};

verus! {

/// The latest of some texts is one of those that are known, no known one is
/// behind it, and there is one unless none is known.
pub proof fn law_latest_is_latest(s: Seq<Option<Seq<char>>>)
    ensures
        latest(s) is None <==> forall|i: int| 0 <= i < s.len() ==> #[trigger] s[i] is None,
        latest(s) is Some ==> s.contains(latest(s)),
        forall|i: int|
            0 <= i < s.len() && (#[trigger] s[i]) is Some ==> latest(s) is Some && !precedes(
                latest(s)->0,
                s[i]->0,
            ),
    decreases s.len(),
{
    if s.len() > 0 {
        let init = s.drop_last();
        law_latest_is_latest(init);
        let n = s.len() - 1;
        assert forall|i: int| 0 <= i < s.len() && (#[trigger] s[i]) is Some implies latest(
            s,
        ) is Some && !precedes(latest(s)->0, s[i]->0) by {
            if i < n {
                assert(init[i] == s[i]);
                lemma_precedes_total(latest(init)->0, s[i]->0);
                if s[n] is Some {
                    lemma_precedes_total(latest(init)->0, s[n]->0);
                    if precedes(latest(init)->0, s[n]->0) && precedes(s[n]->0, s[i]->0) {
                        lemma_precedes_transitive(latest(init)->0, s[n]->0, s[i]->0);
                    }
                }
            } else {
                lemma_precedes_total(s[n]->0, s[n]->0);
                if latest(init) is Some {
                    lemma_precedes_total(latest(init)->0, s[n]->0);
                }
            }
        }
        if latest(s) is Some {
            if latest(s) == s[n] {
                assert(s.contains(s[n]));
            } else {
                let k = choose|k: int| 0 <= k < init.len() && init[k] == latest(init);
                assert(s[k] == latest(s));
            }
        }
        if latest(s) is None {
            assert forall|i: int| 0 <= i < s.len() implies #[trigger] s[i] is None by {
                if i < n {
                    assert(init[i] == s[i]);
                }
            }
        } else if forall|i: int| 0 <= i < s.len() ==> #[trigger] s[i] is None {
            assert forall|i: int| 0 <= i < init.len() implies #[trigger] init[i] is None by {
                assert(init[i] == s[i]);
            }
            assert(s[n] is None);
        }
    }
}

/// The latest of the texts that the rows of a series have.
proof fn lemma_latest_of_rows(
    rows: Seq<EpisodeRow>,
    id: i64,
    text: spec_fn(EpisodeRow) -> Option<Seq<char>>,
)
    ensures
        ({
            let r = latest(rows.filter(of_series(id)).map_values(text));
            &&& forall|k: int|
                0 <= k < rows.len() && (#[trigger] rows[k]).series_id == id && text(rows[k]) is Some
                    ==> r is Some && !precedes(r->0, text(rows[k])->0)
            &&& r is Some ==> exists|k: int|
                0 <= k < rows.len() && (#[trigger] rows[k]).series_id == id && text(rows[k]) == r
        }),
{
    let mine = rows.filter(of_series(id));
    let s = mine.map_values(text);
    law_latest_is_latest(s);
    assert forall|k: int|
        0 <= k < rows.len() && (#[trigger] rows[k]).series_id == id && text(
            rows[k],
        ) is Some implies latest(s) is Some && !precedes(latest(s)->0, text(rows[k])->0) by {
        rows.lemma_filter_contains(of_series(id), k);
        let i = choose|i: int| 0 <= i < mine.len() && mine[i] == rows[k];
        assert(s[i] == text(rows[k]));
    }
    if latest(s) is Some {
        let i = choose|i: int| 0 <= i < s.len() && s[i] == latest(s);
        assert(mine.contains(mine[i]));
        lemma_filter_member(rows, of_series(id), mine[i]);
        let k = choose|k: int| 0 <= k < rows.len() && rows[k] == mine[i];
        assert(text(rows[k]) == s[i]);
    }
}

/// No episode of a show, whatever site it is on, was marked seen behind the date
/// at which the library says that the show was last watched, and one was marked
/// then. There is no date only where no episode has one.
pub proof fn law_last_watched(item: LibraryItem, db: Db, active: i64, members: Seq<SeriesRow>)
    requires
        item_for(item, db, active, members),
    ensures
        forall|m: int, k: int|
            #![trigger members[m], db.episodes@[k]]
            0 <= m < members.len() && 0 <= k < db.episodes@.len() && db.episodes@[k].series_id
                == members[m].id && db.episodes@[k].seen_at is Some ==> (
            item.last_watched_at matches Some(t) && !precedes(t@, db.episodes@[k].seen_at->0@)),
        item.last_watched_at is Some ==> exists|m: int, k: int|
            #![trigger members[m], db.episodes@[k]]
            0 <= m < members.len() && 0 <= k < db.episodes@.len() && db.episodes@[k].series_id
                == members[m].id && opt_text(db.episodes@[k].seen_at) == opt_text(
                item.last_watched_at,
            ),
{
    let text = |e: EpisodeRow| opt_text(e.seen_at);
    let s = members.map_values(|m: SeriesRow| last_seen_of(db.episodes@, m.id));
    let rep = choose|rep: SeriesRow| item_of(item, db, active, members, rep);
    law_latest_is_latest(s);
    assert(opt_text(item.last_watched_at) == latest(s));
    assert forall|m: int, k: int|
        #![trigger members[m], db.episodes@[k]]
        0 <= m < members.len() && 0 <= k < db.episodes@.len() && db.episodes@[k].series_id
            == members[m].id && db.episodes@[k].seen_at is Some implies (
    item.last_watched_at matches Some(t) && !precedes(t@, db.episodes@[k].seen_at->0@)) by {
        let id = members[m].id;
        lemma_latest_of_rows(db.episodes@, id, text);
        assert(db.episodes@.filter(of_series(id)).map_values(text) =~= db.episodes@.filter(
            of_series(id),
        ).map_values(|e: EpisodeRow| opt_text(e.seen_at)));
        assert(s[m] == last_seen_of(db.episodes@, id));
        lemma_not_behind(latest(s)->0, s[m]->0, text(db.episodes@[k])->0);
    }
    if item.last_watched_at is Some {
        let m = choose|m: int| 0 <= m < s.len() && s[m] == latest(s);
        let id = members[m].id;
        lemma_latest_of_rows(db.episodes@, id, text);
        assert(db.episodes@.filter(of_series(id)).map_values(text) =~= db.episodes@.filter(
            of_series(id),
        ).map_values(|e: EpisodeRow| opt_text(e.seen_at)));
        assert(s[m] == last_seen_of(db.episodes@, id));
        let k = choose|k: int|
            0 <= k < db.episodes@.len() && (#[trigger] db.episodes@[k]).series_id == id && text(
                db.episodes@[k],
            ) == s[m];
        assert(db.episodes@[k].series_id == members[m].id);
    }
}

/// What is not behind a text that is not behind another is not behind that.
proof fn lemma_not_behind(a: Seq<char>, b: Seq<char>, c: Seq<char>)
    requires
        !precedes(a, b),
        !precedes(b, c),
    ensures
        !precedes(a, c),
{
    lemma_precedes_total(a, b);
    lemma_precedes_total(b, c);
    lemma_precedes_total(a, c);
    if precedes(a, c) {
        if b == c {
        } else if a == b {
        } else {
            lemma_precedes_transitive(c, b, a);
        }
    }
}

/// No episode of a show, whatever site it is on, was added behind the date at
/// which the library says that the show was last added to, and one was added
/// then. There is no date only where there is no episode.
pub proof fn law_last_added(item: LibraryItem, db: Db, active: i64, members: Seq<SeriesRow>)
    requires
        item_for(item, db, active, members),
    ensures
        forall|m: int, k: int|
            #![trigger members[m], db.episodes@[k]]
            0 <= m < members.len() && 0 <= k < db.episodes@.len() && db.episodes@[k].series_id
                == members[m].id ==> (item.last_added matches Some(t) && !precedes(
                t@,
                db.episodes@[k].added_at@,
            )),
        item.last_added is Some ==> exists|m: int, k: int|
            #![trigger members[m], db.episodes@[k]]
            0 <= m < members.len() && 0 <= k < db.episodes@.len() && db.episodes@[k].series_id
                == members[m].id && Some(db.episodes@[k].added_at@) == opt_text(item.last_added),
{
    let text = |e: EpisodeRow| Some(e.added_at@);
    let s = members.map_values(|m: SeriesRow| last_added_of(db.episodes@, m.id));
    let rep = choose|rep: SeriesRow| item_of(item, db, active, members, rep);
    law_latest_is_latest(s);
    assert(opt_text(item.last_added) == latest(s));
    assert forall|m: int, k: int|
        #![trigger members[m], db.episodes@[k]]
        0 <= m < members.len() && 0 <= k < db.episodes@.len() && db.episodes@[k].series_id
            == members[m].id implies (item.last_added matches Some(t) && !precedes(
        t@,
        db.episodes@[k].added_at@,
    )) by {
        let id = members[m].id;
        lemma_latest_of_rows(db.episodes@, id, text);
        assert(db.episodes@.filter(of_series(id)).map_values(text) =~= db.episodes@.filter(
            of_series(id),
        ).map_values(|e: EpisodeRow| Some(e.added_at@)));
        assert(s[m] == last_added_of(db.episodes@, id));
        lemma_not_behind(latest(s)->0, s[m]->0, text(db.episodes@[k])->0);
    }
    if item.last_added is Some {
        let m = choose|m: int| 0 <= m < s.len() && s[m] == latest(s);
        let id = members[m].id;
        lemma_latest_of_rows(db.episodes@, id, text);
        assert(db.episodes@.filter(of_series(id)).map_values(text) =~= db.episodes@.filter(
            of_series(id),
        ).map_values(|e: EpisodeRow| Some(e.added_at@)));
        assert(s[m] == last_added_of(db.episodes@, id));
        let k = choose|k: int|
            0 <= k < db.episodes@.len() && (#[trigger] db.episodes@[k]).series_id == id && text(
                db.episodes@[k],
            ) == s[m];
        assert(db.episodes@[k].series_id == members[m].id);
    }
}

/// The progress of a series: how many episodes it has, how many are seen, and the
/// latest times.
pub proof fn law_progress(p: Progress, episodes: Seq<EpisodeRow>, id: i64, k: int)
    requires
        progress_of(p, episodes, id),
        0 <= k < episodes.len(),
        episodes[k].series_id == id,
    ensures
        p.total >= 1,
        0 <= p.seen <= p.total,
        episodes[k].seen ==> p.seen >= 1,
        p.last_added matches Some(t) && !precedes(t@, episodes[k].added_at@),
        episodes[k].seen_at is Some ==> (p.last_seen matches Some(t) && !precedes(
            t@,
            episodes[k].seen_at->0@,
        )),
{
    crate::laws::watching::law_seen_and_unseen(episodes, id);
    crate::rows::lemma_count_zero(episodes, of_series(id));
    assert(of_series(id)(episodes[k]));
    crate::rows::lemma_count_zero(episodes, crate::db::series_lists::seen_of(id));
    if episodes[k].seen {
        assert(crate::db::series_lists::seen_of(id)(episodes[k]));
    }
    lemma_latest_of_rows(episodes, id, |e: EpisodeRow| Some(e.added_at@));
    lemma_latest_of_rows(episodes, id, |e: EpisodeRow| opt_text(e.seen_at));
}

} // verus!
