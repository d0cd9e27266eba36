//! Which of the episodes found on a page are new.

use vstd::prelude::*;
use crate::db::copy_text;
use crate::models::Episode;
use crate::rows::{lemma_count_zero, lemma_filter_none, lemma_filter_step};
use crate::text_set::TextSet;

verus! {

/// The condition of an episode's number not being known. Its address does not
/// matter: sites move between domains, the number stays.
pub open spec fn unknown(known_numbers: Set<Seq<char>>) -> spec_fn(Episode) -> bool {
    |e: Episode| !known_numbers.contains(e.number@)
}

impl Episode {
    /// A copy of the episode.
    pub fn copy(&self) -> (r: Episode)
        ensures
            r == *self,
    {
        Episode {
            id: self.id,
            series_id: self.series_id,
            number: self.number.clone(),
            title: copy_text(&self.title),
            url: self.url.clone(),
            released_at: copy_text(&self.released_at),
            seen: self.seen,
        }
    }
}

/// The episodes whose number is not known yet, in their order.
pub fn new_episodes(scraped: &[Episode], known_numbers: &TextSet) -> (r: Vec<Episode>)
    ensures
        r@ == scraped@.filter(unknown(known_numbers@)),
{
    let ghost hit = unknown(known_numbers@);
    let mut out: Vec<Episode> = Vec::new();
    let mut i: usize = 0;
    proof {
        lemma_filter_none(scraped@, hit);
    }
    while i < scraped.len()
        invariant
            i <= scraped@.len(),
            hit == unknown(known_numbers@),
            out@ == scraped@.take(i as int).filter(hit),
        decreases scraped@.len() - i,
    {
        proof {
            lemma_filter_step(scraped@, hit, i as int);
        }
        if !known_numbers.contains(scraped[i].number.as_str()) {
            out.push(scraped[i].copy());
        }
        i += 1;
    }
    proof {
        lemma_filter_none(scraped@, hit);
    }
    out
}

/// Scanning again, under whatever addresses, finds nothing new once the numbers
/// are known.
pub proof fn law_rescan_finds_nothing(scraped: Seq<Episode>, known_numbers: Set<Seq<char>>)
    requires
        forall|i: int|
            0 <= i < scraped.len() ==> known_numbers.contains((#[trigger] scraped[i]).number@),
    ensures
        scraped.filter(unknown(known_numbers)) == Seq::<Episode>::empty(),
{
    lemma_count_zero(scraped, unknown(known_numbers));
    assert(scraped.filter(unknown(known_numbers)) =~= Seq::<Episode>::empty());
}

} // verus!
