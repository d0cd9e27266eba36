//! What a franchise is credited with for series that were watched elsewhere.

use vstd::prelude::*;
use crate::db::grouping::{catalog_of, entry_with_id};
use crate::db::parents::{absorbed_external, folded_rollup, home, FranchiseGroup};
use crate::db::franchise::{format_minutes, FranchiseRollup};
use crate::db::rollups::{catalog_length, episode_minutes, external, group_of};
use crate::db::{catalog_keyed, opt_text, Db, SeriesRow};
use crate::rows::lemma_first_where_at;

verus! {

/// The length of a series in the catalog is that of the entry it is linked to, and
/// the minutes of an episode are the entry's where it has them; else they are
/// estimated by the site's kind, and by the entry's format where there is none.
pub proof fn law_length_comes_from_the_entry(db: Db, s: SeriesRow, c: int)
    requires
        catalog_keyed(db.catalog@),
        0 <= c < db.catalog@.len(),
        s.anilist_id == Some(db.catalog@[c].id),
    ensures
        catalog_length(db, s) == match db.catalog@[c].episodes {
            Some(e) => Some(e as int),
            None => None,
        },
        db.catalog@[c].duration matches Some(d) ==> episode_minutes(db, s) == d,
        db.catalog@[c].duration is None && s.kind is Some ==> episode_minutes(db, s)
            == format_minutes(opt_text(s.kind)),
        db.catalog@[c].duration is None && s.kind is None ==> episode_minutes(db, s)
            == format_minutes(opt_text(db.catalog@[c].format)),
{
    let id = db.catalog@[c].id;
    assert forall|k: int| 0 <= k < c implies !entry_with_id(id)(#[trigger] db.catalog@[k]) by {
        assert(db.catalog@[k].id != db.catalog@[c].id);
    }
    lemma_first_where_at(db.catalog@, entry_with_id(id), c);
    assert(catalog_of(db.catalog@, s.anilist_id) == Some(db.catalog@[c]));
}

/// A series that is linked to nothing has no length in the catalog, and its
/// minutes are estimated by its kind.
pub proof fn law_unlinked_has_no_length(db: Db, s: SeriesRow)
    requires
        s.anilist_id is None,
    ensures
        catalog_length(db, s) is None,
        episode_minutes(db, s) == format_minutes(opt_text(s.kind)),
{
}

/// Whether a series has been watched elsewhere and has a length in the catalog.
pub open spec fn credits(db: Db, s: SeriesRow, length: int) -> bool {
    s.watched_externally && catalog_length(db, s) == Some(length)
}

/// A franchise is credited with the longest of its series that were watched
/// elsewhere: with no less than the length of any of them, and with that of one of
/// them and its minutes, unless none has a length.
pub proof fn law_credit_is_the_longest(db: Db, members: Seq<SeriesRow>)
    ensures
        external(db, members).0 >= 0,
        forall|i: int, e: int|
            0 <= i < members.len() && #[trigger] credits(db, members[i], e) ==> external(
                db,
                members,
            ).0 >= e,
        external(db, members) == (0int, 0int) || exists|i: int|
            0 <= i < members.len() && credits(db, #[trigger] members[i], external(db, members).0)
                && external(db, members).1 == external(db, members).0 * episode_minutes(
                db,
                members[i],
            ),
    decreases members.len(),
{
    if members.len() > 0 {
        let init = members.drop_last();
        let n = members.len() - 1;
        law_credit_is_the_longest(db, init);
        assert forall|i: int, e: int|
            0 <= i < members.len() && #[trigger] credits(db, members[i], e) implies external(
            db,
            members,
        ).0 >= e by {
            if i < n {
                assert(init[i] == members[i]);
                assert(credits(db, init[i], e));
            }
        }
        if external(db, members) == external(db, init) {
            if external(db, init) != (0int, 0int) {
                let i = choose|i: int|
                    0 <= i < init.len() && credits(db, #[trigger] init[i], external(db, init).0)
                        && external(db, init).1 == external(db, init).0 * episode_minutes(
                        db,
                        init[i],
                    );
                assert(members[i] == init[i]);
            }
        } else {
            assert(credits(db, members[n], external(db, members).0));
        }
    }
}

/// The order of the series does not count: two lists of the same series are
/// credited with the same length.
pub proof fn law_credit_ignores_order(db: Db, a: Seq<SeriesRow>, b: Seq<SeriesRow>)
    requires
        forall|s: SeriesRow| #[trigger] a.contains(s) <==> b.contains(s),
    ensures
        external(db, a).0 == external(db, b).0,
{
    lemma_credit_covers(db, a, b);
    lemma_credit_covers(db, b, a);
}

proof fn lemma_credit_covers(db: Db, a: Seq<SeriesRow>, b: Seq<SeriesRow>)
    requires
        forall|s: SeriesRow| #[trigger] a.contains(s) ==> b.contains(s),
    ensures
        external(db, a).0 <= external(db, b).0,
{
    law_credit_is_the_longest(db, a);
    law_credit_is_the_longest(db, b);
    if external(db, a) != (0int, 0int) {
        let e = external(db, a).0;
        let i = choose|i: int|
            0 <= i < a.len() && credits(db, #[trigger] a[i], e) && external(db, a).1 == e
                * episode_minutes(db, a[i]);
        assert(a.contains(a[i]));
        let j = choose|j: int| 0 <= j < b.len() && b[j] == a[i];
        assert(credits(db, b[j], e));
    }
}

/// What a franchise's rollup says of the series watched elsewhere: no length in
/// the catalog exceeds it, and it is that of one of them with its minutes.
pub proof fn law_group_is_credited_with_the_longest(
    g: FranchiseGroup,
    db: Db,
    members: Seq<SeriesRow>,
)
    requires
        group_of(g, db, members),
    ensures
        forall|i: int, e: int|
            0 <= i < members.len() && #[trigger] credits(db, members[i], e)
                ==> g.rollup.external_episodes >= e,
        g.rollup.external_episodes == 0 && g.rollup.external_minutes == 0 || exists|i: int|
            0 <= i < members.len() && credits(
                db,
                #[trigger] members[i],
                g.rollup.external_episodes as int,
            ) && g.rollup.external_minutes == g.rollup.external_episodes * episode_minutes(
                db,
                members[i],
            ),
{
    law_credit_is_the_longest(db, members);
}

/// An arc that is folded into its show adds no second estimate: the show is
/// credited with the longest of its own and of what is folded into it, and with
/// the minutes of that.
pub proof fn law_folding_keeps_the_longest(groups: Seq<FranchiseGroup>, g: int, n: int)
    requires
        0 <= g < groups.len(),
        0 <= n <= groups.len(),
    ensures
        absorbed_external(groups, g, n).0 >= groups[g].rollup.external_episodes,
        forall|k: int|
            0 <= k < n && home(groups, k) == g ==> absorbed_external(groups, g, n).0 >= (
            #[trigger] groups[k]).rollup.external_episodes,
        exists|k: int|
            0 <= k < groups.len() && (k == g || home(groups, k) == g) && absorbed_external(
                groups,
                g,
                n,
            ) == (
                (#[trigger] groups[k]).rollup.external_episodes as int,
                groups[k].rollup.external_minutes as int,
            ),
    decreases n,
{
    if n > 0 {
        law_folding_keeps_the_longest(groups, g, n - 1);
        let r = groups[n - 1].rollup;
        assert(absorbed_external(groups, g, n) == absorbed_external(groups, g, n - 1)
            || absorbed_external(groups, g, n) == (
            r.external_episodes as int,
            r.external_minutes as int,
        ));
    } else {
        assert(absorbed_external(groups, g, 0) == (
            groups[g].rollup.external_episodes as int,
            groups[g].rollup.external_minutes as int,
        ));
    }
}

/// The rollup of a show with its arcs: its estimate is the longest of theirs.
pub proof fn law_rollup_is_credited_with_the_longest(
    r: FranchiseRollup,
    groups: Seq<FranchiseGroup>,
    g: int,
)
    requires
        0 <= g < groups.len(),
        folded_rollup(r, groups, g),
    ensures
        forall|k: int|
            0 <= k < groups.len() && home(groups, k) == g ==> r.external_episodes >= (
            #[trigger] groups[k]).rollup.external_episodes,
        exists|k: int|
            0 <= k < groups.len() && (k == g || home(groups, k) == g) && r.external_episodes == (
            #[trigger] groups[k]).rollup.external_episodes && r.external_minutes
                == groups[k].rollup.external_minutes,
{
    law_folding_keeps_the_longest(groups, g, groups.len() as int);
}

/// Of several series of one length, the first one's minutes count.
pub proof fn law_first_of_one_length_counts(db: Db, members: Seq<SeriesRow>, i: int)
    requires
        0 <= i < members.len(),
        external(db, members).0 > 0,
        credits(db, members[i], external(db, members).0),
        forall|j: int|
            0 <= j < i ==> !credits(db, #[trigger] members[j], external(db, members).0),
    ensures
        external(db, members).1 == external(db, members).0 * episode_minutes(db, members[i]),
    decreases members.len(),
{
    let init = members.drop_last();
    let m = members.last();
    let e = external(db, members).0;
    law_credit_is_the_longest(db, init);
    if i < init.len() {
        assert(init[i] == members[i]);
        assert(credits(db, init[i], e));
        assert forall|j: int| 0 <= j < i implies !credits(db, #[trigger] init[j], e) by {
            assert(init[j] == members[j]);
        }
        law_first_of_one_length_counts(db, init, i);
    } else {
        if external(db, init).0 == e {
            let k = choose|k: int|
                0 <= k < init.len() && credits(db, #[trigger] init[k], external(db, init).0)
                    && external(db, init).1 == external(db, init).0 * episode_minutes(db, init[k]);
            assert(members[k] == init[k]);
        }
    }
}

/// A franchise keeps its own credit where none that is folded into it has more.
pub proof fn law_own_credit_stays(groups: Seq<FranchiseGroup>, g: int, n: int)
    requires
        0 <= g < groups.len(),
        0 <= n <= groups.len(),
        forall|k: int|
            0 <= k < n && home(groups, k) == g ==> (#[trigger] groups[k]).rollup.external_episodes
                <= groups[g].rollup.external_episodes,
    ensures
        absorbed_external(groups, g, n) == (
            groups[g].rollup.external_episodes as int,
            groups[g].rollup.external_minutes as int,
        ),
    decreases n,
{
    if n > 0 {
        law_own_credit_stays(groups, g, n - 1);
    }
}

} // verus!
