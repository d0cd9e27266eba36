//! Arcs folded into the shows that they are arcs of.

use vstd::prelude::*;
use crate::db::franchise::FranchiseRollup;
use crate::db::opt_text;
use crate::text::same_text;

verus! {

/// A franchise with its key and the key of the show that it may be an arc of.
#[derive(Debug, Clone, PartialEq)]
pub struct FranchiseGroup {
    pub key: String,
    pub parent: Option<String>,
    pub rollup: FranchiseRollup,
}

/// The most steps from an arc to the show that it belongs to.
pub const MAX_DEPTH: u8 = 8;

/// The first franchise with a key; their number if there is none.
pub open spec fn keyed_at(groups: Seq<FranchiseGroup>, key: Seq<char>) -> int
    decreases groups.len(),
{
    if groups.len() == 0 || groups[0].key@ == key {
        0
    } else {
        1 + keyed_at(groups.drop_first(), key)
    }
}

/// The franchise that one is directly an arc of: the one with its parent key,
/// if that is among them, and itself otherwise. A colon that is only
/// punctuation never merges anything.
pub open spec fn step_up(groups: Seq<FranchiseGroup>, g: int) -> int {
    match groups[g].parent {
        Some(p) => if p@ != groups[g].key@ && keyed_at(groups, p@) < groups.len() {
            keyed_at(groups, p@)
        } else {
            g
        },
        None => g,
    }
}

/// The franchise reached from one in a number of steps.
pub open spec fn climb(groups: Seq<FranchiseGroup>, g: int, steps: nat) -> int
    decreases steps,
{
    if steps == 0 || step_up(groups, g) == g {
        g
    } else {
        climb(groups, step_up(groups, g), (steps - 1) as nat)
    }
}

/// The franchise that one is folded into.
pub open spec fn home(groups: Seq<FranchiseGroup>, g: int) -> int {
    climb(groups, g, MAX_DEPTH as nat)
}

/// The franchises that are not folded into another, of the first `n`.
pub open spec fn survivors(groups: Seq<FranchiseGroup>, n: int) -> Seq<int>
    decreases n,
{
    if n <= 0 {
        Seq::empty()
    } else if home(groups, n - 1) == n - 1 {
        survivors(groups, n - 1).push(n - 1)
    } else {
        survivors(groups, n - 1)
    }
}

/// The sum of a figure over those of the first `n` franchises that are folded
/// into `g`, itself among them.
pub open spec fn absorbed(
    groups: Seq<FranchiseGroup>,
    g: int,
    n: int,
    figure: spec_fn(FranchiseRollup) -> int,
) -> int
    decreases n,
{
    if n <= 0 {
        0
    } else {
        absorbed(groups, g, n - 1, figure) + if home(groups, n - 1) == g {
            figure(groups[n - 1].rollup)
        } else {
            0
        }
    }
}

/// The episodes marked seen.
pub open spec fn seen_figure() -> spec_fn(FranchiseRollup) -> int {
    |r: FranchiseRollup| r.real_seen as int
}

/// The minutes of the episodes marked seen.
pub open spec fn minutes_figure() -> spec_fn(FranchiseRollup) -> int {
    |r: FranchiseRollup| r.real_minutes as int
}

/// The length marked as watched elsewhere, with its minutes: the franchise's
/// own, or the first larger one among the first `n` that are folded into it.
pub open spec fn absorbed_external(groups: Seq<FranchiseGroup>, g: int, n: int) -> (int, int)
    decreases n,
{
    if n <= 0 {
        (groups[g].rollup.external_episodes as int, groups[g].rollup.external_minutes as int)
    } else {
        let before = absorbed_external(groups, g, n - 1);
        let r = groups[n - 1].rollup;
        if n - 1 != g && home(groups, n - 1) == g && r.external_episodes > before.0 {
            (r.external_episodes as int, r.external_minutes as int)
        } else {
            before
        }
    }
}

/// Whether a rollup is that of a franchise with all that is folded into it. Its
/// title is its own.
pub open spec fn folded_rollup(r: FranchiseRollup, groups: Seq<FranchiseGroup>, g: int) -> bool {
    let n = groups.len() as int;
    &&& r.display_title == groups[g].rollup.display_title
    &&& r.real_seen == absorbed(groups, g, n, seen_figure())
    &&& r.real_minutes == absorbed(groups, g, n, minutes_figure())
    &&& (r.external_episodes as int, r.external_minutes as int) == absorbed_external(groups, g, n)
}

/// Whether rollups are those of the franchises that are not folded into another.
pub open spec fn folded_rollups(rs: Seq<FranchiseRollup>, groups: Seq<FranchiseGroup>) -> bool {
    let homes = survivors(groups, groups.len() as int);
    &&& rs.len() == homes.len()
    &&& forall|i: int| 0 <= i < rs.len() ==> #[trigger] folded_rollup(rs[i], groups, homes[i])
}

/// A number without its sign.
pub open spec fn size(x: int) -> int {
    if x < 0 { -x } else { x }
}

/// The sum of the sizes of a figure over the first `n` franchises.
pub open spec fn total_size(
    groups: Seq<FranchiseGroup>,
    n: int,
    figure: spec_fn(FranchiseRollup) -> int,
) -> int
    decreases n,
{
    if n <= 0 {
        0
    } else {
        total_size(groups, n - 1, figure) + size(figure(groups[n - 1].rollup))
    }
}

/// The sum over a list of franchises of what they have absorbed.
pub open spec fn absorbed_by_all(
    groups: Seq<FranchiseGroup>,
    homes: Seq<int>,
    m: int,
    n: int,
    figure: spec_fn(FranchiseRollup) -> int,
) -> int
    decreases m,
{
    if m <= 0 {
        0
    } else {
        absorbed_by_all(groups, homes, m - 1, n, figure) + absorbed(
            groups,
            homes[m - 1],
            n,
            figure,
        )
    }
}

/// What a franchise has absorbed is no larger than all there is.
pub proof fn lemma_absorbed_bounded(
    groups: Seq<FranchiseGroup>,
    g: int,
    n: int,
    figure: spec_fn(FranchiseRollup) -> int,
)
    requires
        0 <= n,
    ensures
        size(absorbed(groups, g, n, figure)) <= total_size(groups, n, figure),
    decreases n,
{
    if n > 0 {
        lemma_absorbed_bounded(groups, g, n - 1, figure);
    }
}

/// Sizes only add up.
pub proof fn lemma_total_size_monotone(
    groups: Seq<FranchiseGroup>,
    m: int,
    n: int,
    figure: spec_fn(FranchiseRollup) -> int,
)
    requires
        0 <= m <= n,
    ensures
        0 <= total_size(groups, m, figure) <= total_size(groups, n, figure),
    decreases n,
{
    if m < n {
        lemma_total_size_monotone(groups, m, n - 1, figure);
    } else if n > 0 {
        lemma_total_size_monotone(groups, m - 1, n - 1, figure);
    }
}

proof fn lemma_absorbed_by_all_step(
    groups: Seq<FranchiseGroup>,
    homes: Seq<int>,
    m: int,
    n: int,
    figure: spec_fn(FranchiseRollup) -> int,
)
    requires
        0 < n,
        0 <= m <= homes.len(),
        homes.no_duplicates(),
    ensures
        ({
            let now = absorbed_by_all(groups, homes, m, n, figure);
            let before = absorbed_by_all(groups, homes, m, n - 1, figure);
            let gain = figure(groups[n - 1].rollup);
            &&& now == before || now == before + gain
            &&& (forall|i: int| 0 <= i < m ==> #[trigger] homes[i] != home(groups, n - 1)) ==> now
                == before
        }),
    decreases m,
{
    if m > 0 {
        lemma_absorbed_by_all_step(groups, homes, m - 1, n, figure);
        if homes[m - 1] == home(groups, n - 1) {
            assert forall|i: int| 0 <= i < m - 1 implies #[trigger] homes[i] != home(
                groups,
                n - 1,
            ) by {
                assert(homes[i] != homes[m - 1]);
            }
        }
    }
}

/// What different franchises have absorbed adds up to no more than all there
/// is: nothing is absorbed twice.
pub proof fn law_nothing_absorbed_twice(
    groups: Seq<FranchiseGroup>,
    homes: Seq<int>,
    m: int,
    n: int,
    figure: spec_fn(FranchiseRollup) -> int,
)
    requires
        0 <= n,
        0 <= m <= homes.len(),
        homes.no_duplicates(),
    ensures
        size(absorbed_by_all(groups, homes, m, n, figure)) <= total_size(groups, n, figure),
    decreases n,
{
    if n > 0 {
        law_nothing_absorbed_twice(groups, homes, m, n - 1, figure);
        lemma_absorbed_by_all_step(groups, homes, m, n, figure);
    } else {
        lemma_absorbed_nothing(groups, homes, m, figure);
    }
}

proof fn lemma_absorbed_nothing(
    groups: Seq<FranchiseGroup>,
    homes: Seq<int>,
    m: int,
    figure: spec_fn(FranchiseRollup) -> int,
)
    ensures
        absorbed_by_all(groups, homes, m, 0, figure) == 0,
    decreases m,
{
    if m > 0 {
        lemma_absorbed_nothing(groups, homes, m - 1, figure);
    }
}

/// Survivors are places, in order.
pub proof fn lemma_survivors(groups: Seq<FranchiseGroup>, n: int)
    requires
        0 <= n,
    ensures
        survivors(groups, n).len() <= n,
        forall|i: int|
            0 <= i < survivors(groups, n).len() ==> 0 <= #[trigger] survivors(groups, n)[i] < n
                && home(groups, survivors(groups, n)[i]) == survivors(groups, n)[i],
        survivors(groups, n).no_duplicates(),
    decreases n,
{
    if n > 0 {
        lemma_survivors(groups, n - 1);
        let b = survivors(groups, n - 1);
        let s = survivors(groups, n);
        assert forall|i: int| 0 <= i < s.len() implies 0 <= #[trigger] s[i] < n && home(groups, s[i])
            == s[i] by {
            if i < b.len() {
                assert(0 <= b[i] < n - 1);
            }
        }
    }
}

/// The first franchise with a key.
fn find_key(groups: &Vec<FranchiseGroup>, key: &str) -> (r: usize)
    ensures
        r == keyed_at(groups@, key@),
        r <= groups@.len(),
{
    let mut i: usize = 0;
    assert(groups@.skip(0) =~= groups@);
    while i < groups.len() && !same_text(groups[i].key.as_str(), key)
        invariant
            i <= groups@.len(),
            keyed_at(groups@, key@) == i + keyed_at(groups@.skip(i as int), key@),
        decreases groups@.len() - i,
    {
        assert(groups@.skip(i as int).drop_first() =~= groups@.skip(i + 1));
        i += 1;
    }
    i
}

/// The franchise that one is folded into.
fn find_home(groups: &Vec<FranchiseGroup>, g: usize) -> (r: usize)
    requires
        g < groups@.len(),
    ensures
        r == home(groups@, g as int),
        r < groups@.len(),
{
    let mut at: usize = g;
    let mut left: u8 = MAX_DEPTH;
    while left > 0
        invariant
            at < groups@.len(),
            left <= MAX_DEPTH,
            home(groups@, g as int) == climb(groups@, at as int, left as nat),
        decreases left,
    {
        let next: usize = match &groups[at].parent {
            Some(p) => if !same_text(p.as_str(), groups[at].key.as_str()) {
                let k: usize = find_key(groups, p.as_str());
                if k < groups.len() {
                    k
                } else {
                    at
                }
            } else {
                at
            },
            None => at,
        };
        if next == at {
            return at;
        }
        at = next;
        left -= 1;
    }
    at
}

/// Folds every arc into the show that it belongs to and returns the shows. An
/// arc only joins a show that is itself among the franchises.
pub fn merge_into_parent_franchises(groups: &Vec<FranchiseGroup>) -> (r: Vec<FranchiseRollup>)
    requires
        total_size(groups@, groups@.len() as int, seen_figure()) <= i64::MAX,
        total_size(groups@, groups@.len() as int, minutes_figure()) <= i64::MAX,
    ensures
        folded_rollups(r@, groups@),
{
    let n: usize = groups.len();
    let mut homes: Vec<usize> = Vec::new();
    let mut i: usize = 0;
    while i < n
        invariant
            n == groups@.len(),
            i <= n,
            homes@.len() == i,
            forall|k: int| 0 <= k < i ==> #[trigger] homes@[k] == home(groups@, k),
        decreases n - i,
    {
        homes.push(find_home(groups, i));
        i += 1;
    }
    let mut out: Vec<FranchiseRollup> = Vec::new();
    let mut g: usize = 0;
    while g < n
        invariant
            n == groups@.len(),
            g <= n,
            homes@.len() == n,
            forall|k: int| 0 <= k < n ==> #[trigger] homes@[k] == home(groups@, k),
            total_size(groups@, n as int, seen_figure()) <= i64::MAX,
            total_size(groups@, n as int, minutes_figure()) <= i64::MAX,
            out@.len() == survivors(groups@, g as int).len(),
            forall|k: int|
                0 <= k < out@.len() ==> #[trigger] folded_rollup(
                    out@[k],
                    groups@,
                    survivors(groups@, g as int)[k],
                ),
        decreases n - g,
    {
        if homes[g] == g {
            let r = fold_home(groups, &homes, g);
            let ghost had = out@;
            let ghost list = survivors(groups@, g as int);
            out.push(r);
            assert(survivors(groups@, g + 1) == list.push(g as int));
            assert forall|k: int| 0 <= k < out@.len() implies #[trigger] folded_rollup(
                out@[k],
                groups@,
                survivors(groups@, g + 1)[k],
            ) by {
                if k < had.len() {
                    assert(out@[k] == had[k]);
                    assert(folded_rollup(had[k], groups@, list[k]));
                }
            }
        }
        g += 1;
    }
    out
}

/// A franchise with all that is folded into it.
fn fold_home(groups: &Vec<FranchiseGroup>, homes: &Vec<usize>, g: usize) -> (r: FranchiseRollup)
    requires
        g < groups@.len(),
        homes@.len() == groups@.len(),
        forall|k: int| 0 <= k < homes@.len() ==> #[trigger] homes@[k] == home(groups@, k),
        total_size(groups@, groups@.len() as int, seen_figure()) <= i64::MAX,
        total_size(groups@, groups@.len() as int, minutes_figure()) <= i64::MAX,
    ensures
        folded_rollup(r, groups@, g as int),
{
    let n: usize = groups.len();
    let mut seen: i64 = 0;
    let mut minutes: i64 = 0;
    let mut episodes: i64 = groups[g].rollup.external_episodes;
    let mut external: i64 = groups[g].rollup.external_minutes;
    let mut h: usize = 0;
    while h < n
        invariant
            n == groups@.len(),
            h <= n,
            g < n,
            homes@.len() == n,
            forall|k: int| 0 <= k < homes@.len() ==> #[trigger] homes@[k] == home(groups@, k),
            total_size(groups@, n as int, seen_figure()) <= i64::MAX,
            total_size(groups@, n as int, minutes_figure()) <= i64::MAX,
            seen == absorbed(groups@, g as int, h as int, seen_figure()),
            minutes == absorbed(groups@, g as int, h as int, minutes_figure()),
            (episodes as int, external as int) == absorbed_external(groups@, g as int, h as int),
        decreases n - h,
    {
        proof {
            lemma_absorbed_bounded(groups@, g as int, h + 1, seen_figure());
            lemma_absorbed_bounded(groups@, g as int, h + 1, minutes_figure());
            lemma_total_size_monotone(groups@, h + 1, n as int, seen_figure());
            lemma_total_size_monotone(groups@, h + 1, n as int, minutes_figure());
        }
        if homes[h] == g {
            let r = &groups[h].rollup;
            seen = seen + r.real_seen;
            minutes = minutes + r.real_minutes;
            if h != g && r.external_episodes > episodes {
                episodes = r.external_episodes;
                external = r.external_minutes;
            }
        }
        h += 1;
    }
    FranchiseRollup {
        display_title: groups[g].rollup.display_title.clone(),
        real_seen: seen,
        real_minutes: minutes,
        external_episodes: episodes,
        external_minutes: external,
    }
}

/// Whether two groups tell the same of a franchise.
pub open spec fn same_group(a: FranchiseGroup, b: FranchiseGroup) -> bool {
    &&& a.key@ == b.key@
    &&& opt_text(a.parent) == opt_text(b.parent)
    &&& same_rollup(a.rollup, b.rollup)
}

/// Whether two rollups tell the same of a franchise.
pub open spec fn same_rollup(a: FranchiseRollup, b: FranchiseRollup) -> bool {
    &&& a.display_title@ == b.display_title@
    &&& a.real_seen == b.real_seen
    &&& a.real_minutes == b.real_minutes
    &&& a.external_episodes == b.external_episodes
    &&& a.external_minutes == b.external_minutes
}

/// Whether two lists of groups tell the same of every franchise.
pub open spec fn same_groups(a: Seq<FranchiseGroup>, b: Seq<FranchiseGroup>) -> bool {
    &&& a.len() == b.len()
    &&& forall|g: int| 0 <= g < a.len() ==> same_group(#[trigger] a[g], b[g])
}

proof fn lemma_same_keyed_at(a: Seq<FranchiseGroup>, b: Seq<FranchiseGroup>, key: Seq<char>)
    requires
        same_groups(a, b),
    ensures
        keyed_at(a, key) == keyed_at(b, key),
        0 <= keyed_at(a, key) <= a.len(),
    decreases a.len(),
{
    if a.len() > 0 {
        assert(same_group(a[0], b[0]));
        let x = a.drop_first();
        let y = b.drop_first();
        assert forall|g: int| 0 <= g < x.len() implies same_group(#[trigger] x[g], y[g]) by {
            assert(same_group(a[g + 1], b[g + 1]));
        }
        lemma_same_keyed_at(x, y, key);
    }
}

proof fn lemma_same_climb(a: Seq<FranchiseGroup>, b: Seq<FranchiseGroup>, g: int, steps: nat)
    requires
        same_groups(a, b),
        0 <= g < a.len(),
    ensures
        climb(a, g, steps) == climb(b, g, steps),
    decreases steps,
{
    assert(same_group(a[g], b[g]));
    if let Some(p) = a[g].parent {
        lemma_same_keyed_at(a, b, p@);
    }
    assert(step_up(a, g) == step_up(b, g));
    if steps > 0 {
        lemma_same_climb(a, b, step_up(a, g), (steps - 1) as nat);
    }
}

proof fn lemma_same_fold(a: Seq<FranchiseGroup>, b: Seq<FranchiseGroup>, g: int, n: int)
    requires
        same_groups(a, b),
        0 <= g < a.len(),
        0 <= n <= a.len(),
    ensures
        survivors(a, n) == survivors(b, n),
        absorbed(a, g, n, seen_figure()) == absorbed(b, g, n, seen_figure()),
        absorbed(a, g, n, minutes_figure()) == absorbed(b, g, n, minutes_figure()),
        absorbed_external(a, g, n) == absorbed_external(b, g, n),
    decreases n,
{
    assert(same_group(a[g], b[g]));
    if n > 0 {
        lemma_same_fold(a, b, g, n - 1);
        lemma_same_climb(a, b, n - 1, MAX_DEPTH as nat);
        assert(same_group(a[n - 1], b[n - 1]));
    }
}

/// Groups that tell the same are folded into rollups that tell the same.
pub proof fn lemma_same_rollups(
    a: Seq<FranchiseGroup>,
    b: Seq<FranchiseGroup>,
    x: Seq<FranchiseRollup>,
    y: Seq<FranchiseRollup>,
)
    requires
        same_groups(a, b),
        folded_rollups(x, a),
        folded_rollups(y, b),
    ensures
        x.len() == y.len(),
        forall|i: int| 0 <= i < x.len() ==> same_rollup(#[trigger] x[i], y[i]),
{
    let n = a.len() as int;
    let homes = survivors(a, n);
    if n > 0 {
        lemma_same_fold(a, b, 0, n);
    }
    lemma_survivors(a, n);
    assert forall|i: int| 0 <= i < x.len() implies same_rollup(#[trigger] x[i], y[i]) by {
        assert(folded_rollup(x[i], a, homes[i]));
        assert(folded_rollup(y[i], b, homes[i]));
        lemma_same_fold(a, b, homes[i], n);
        assert(same_group(a[homes[i]], b[homes[i]]));
    }
}

} // verus!
