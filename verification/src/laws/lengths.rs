//! The ranges of lengths that the catalog is narrowed by.

use vstd::prelude::*;
use crate::db::catalog::{asked, in_bucket, CatalogFilter};
use crate::db::{CatalogRow, Db};

verus! {

/// The names of the ranges, the one for unknown lengths last.
pub open spec fn range_name(i: int) -> Seq<char> {
    if i == 0 {
        "1"@
    } else if i == 1 {
        "2-12"@
    } else if i == 2 {
        "13-26"@
    } else if i == 3 {
        "27+"@
    } else {
        "unknown"@
    }
}

/// The first length of a range.
pub open spec fn first_length(i: int) -> int {
    if i == 0 {
        1
    } else if i == 1 {
        2
    } else if i == 2 {
        13
    } else {
        27
    }
}

proof fn lemma_range_names()
    ensures
        forall|i: int, j: int|
            0 <= i < 5 && 0 <= j < 5 && #[trigger] range_name(i) == #[trigger] range_name(j) ==> i
                == j,
{
    reveal_strlit("1");
    reveal_strlit("2-12");
    reveal_strlit("13-26");
    reveal_strlit("27+");
    reveal_strlit("unknown");
    assert("1"@.len() == 1 && "2-12"@.len() == 4 && "13-26"@.len() == 5 && "27+"@.len() == 3
        && "unknown"@.len() == 7);
}

/// Every length of at least one episode, and the unknown one, is in exactly one
/// range.
pub proof fn law_ranges_partition(episodes: Option<i64>)
    requires
        episodes matches Some(n) ==> n >= 1,
    ensures
        exists|i: int| 0 <= i < 5 && in_bucket(episodes, #[trigger] range_name(i)),
        forall|i: int, j: int|
            0 <= i < 5 && 0 <= j < 5 && in_bucket(episodes, #[trigger] range_name(i)) && in_bucket(
                episodes,
                #[trigger] range_name(j),
            ) ==> i == j,
{
    lemma_range_names();
    assert(in_bucket(episodes, range_name(0)) || in_bucket(episodes, range_name(1)) || in_bucket(
        episodes,
        range_name(2),
    ) || in_bucket(episodes, range_name(3)) || in_bucket(episodes, range_name(4)));
}

/// A range holds its bounds and what is between them, and ends where the next
/// one begins.
pub proof fn law_ranges_meet(i: int, n: i64)
    requires
        0 <= i < 4,
    ensures
        in_bucket(Some(n), range_name(i)) <==> first_length(i) <= n && (i < 3 ==> n < first_length(
            i + 1,
        )),
        !in_bucket(None, range_name(i)),
        !in_bucket(Some(n), range_name(4)),
        in_bucket(None, range_name(4)),
{
    lemma_range_names();
    assert(range_name(0) != range_name(1) && range_name(0) != range_name(2) && range_name(0)
        != range_name(3) && range_name(0) != range_name(4) && range_name(1) != range_name(2)
        && range_name(1) != range_name(3) && range_name(1) != range_name(4) && range_name(2)
        != range_name(3) && range_name(2) != range_name(4) && range_name(3) != range_name(4));
}

/// What passes a filter for a range has a length of that range.
pub proof fn law_filtered_by_length(filter: CatalogFilter, db: Db, c: CatalogRow, i: int)
    requires
        0 <= i < 4,
        asked(filter.episodes) == Some(range_name(i)),
        filter.admits(db, c),
    ensures
        c.episodes matches Some(n) && first_length(i) <= n && (i < 3 ==> n < first_length(i + 1)),
{
    match c.episodes {
        Some(n) => law_ranges_meet(i, n),
        None => law_ranges_meet(i, 0),
    }
}

} // verus!
