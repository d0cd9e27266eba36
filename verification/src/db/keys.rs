//! Whether tables keep their keys, for whoever loads them from elsewhere.

use vstd::prelude::*;
use crate::db::{
    catalog_genres_keyed, catalog_keyed, episodes_keyed, genres_keyed, library_keyed, series_keyed,
    settings_keyed, sources_keyed, CatalogGenreRow, CatalogRow, Db, EpisodeRow, LibraryEntry,
    SeriesGenreRow, SeriesRow, SettingRow, SourceRow,
};
use crate::rows::key_views;
use crate::text::{
    append_chars, ascii_digit, chars_of, int_text, lemma_int_text_injective, nat_text, text_of,
    write_int,
};
use crate::text_set::TextSet;

verus! {

/// A number and a text as one key.
pub open spec fn row_key(id: int, text: Seq<char>) -> Seq<char> {
    int_text(id).push(':') + text
}

proof fn lemma_nat_text_digits(n: nat)
    ensures
        forall|i: int| 0 <= i < nat_text(n).len() ==> ascii_digit(#[trigger] nat_text(n)[i]),
    decreases n,
{
    if n >= 10 {
        lemma_nat_text_digits(n / 10);
        assert forall|i: int| 0 <= i < nat_text(n).len() implies ascii_digit(
            #[trigger] nat_text(n)[i],
        ) by {
            if i < nat_text(n / 10).len() {
                assert(ascii_digit(nat_text(n / 10)[i]));
            }
        }
    }
}

proof fn lemma_int_text_plain(n: int)
    ensures
        forall|i: int| 0 <= i < int_text(n).len() ==> #[trigger] int_text(n)[i] != ':',
{
    lemma_nat_text_digits(if n < 0 { (-n) as nat } else { n as nat });
    assert forall|i: int| 0 <= i < int_text(n).len() implies #[trigger] int_text(n)[i] != ':' by {
        if n < 0 {
            if i > 0 {
                assert(ascii_digit(nat_text((-n) as nat)[i - 1]));
            }
        } else {
            assert(ascii_digit(nat_text(n as nat)[i]));
        }
    }
}

/// Keys are equal only where both the number and the text are.
pub proof fn law_row_keys_identify(a: int, s: Seq<char>, b: int, t: Seq<char>)
    ensures
        row_key(a, s) == row_key(b, t) <==> a == b && s == t,
{
    let (x, y) = (int_text(a), int_text(b));
    let (p, q) = (row_key(a, s), row_key(b, t));
    if p == q {
        lemma_int_text_plain(a);
        lemma_int_text_plain(b);
        assert(p[x.len() as int] == ':');
        assert(q[y.len() as int] == ':');
        if x.len() < y.len() {
            assert(q[x.len() as int] == y[x.len() as int]);
        } else if y.len() < x.len() {
            assert(p[y.len() as int] == x[y.len() as int]);
        } else {
            assert(x =~= p.take(x.len() as int));
            assert(y =~= q.take(y.len() as int));
            lemma_int_text_injective(a, b);
            assert(s =~= p.skip(x.len() as int + 1));
            assert(t =~= q.skip(y.len() as int + 1));
        }
    }
}

fn key_of(id: i64, text: &str) -> (r: String)
    ensures
        r@ == row_key(id as int, text@),
{
    let mut out = write_int(id);
    out.push(':');
    append_chars(&mut out, &chars_of(text));
    text_of(&out)
}

/// Whether no text occurs twice.
fn distinct(keys: &Vec<String>) -> (r: bool)
    ensures
        r == key_views(keys@).no_duplicates(),
{
    let ghost all = key_views(keys@);
    let mut seen = TextSet::new();
    let mut i: usize = 0;
    while i < keys.len()
        invariant
            i <= keys@.len(),
            all == key_views(keys@),
            forall|t: Seq<char>| #[trigger]
                seen@.contains(t) <==> exists|k: int| 0 <= k < i && all[k] == t,
            forall|a: int, b: int| 0 <= a < b < i ==> all[a] != all[b],
        decreases keys@.len() - i,
    {
        let ghost had = seen@;
        if !seen.insert(keys[i].clone()) {
            proof {
                let k = choose|k: int| 0 <= k < i && all[k] == all[i as int];
                assert(all[k] == all[i as int]);
            }
            return false;
        }
        proof {
            assert forall|a: int| 0 <= a < i implies all[a] != all[i as int] by {
                if all[a] == all[i as int] {
                    assert(had.contains(all[i as int]));
                }
            }
            assert forall|t: Seq<char>| #[trigger] seen@.contains(t) <==> exists|k: int|
                0 <= k < i + 1 && all[k] == t by {
                if had.contains(t) {
                    let k = choose|k: int| 0 <= k < i && all[k] == t;
                    assert(all[k] == t);
                }
                if t == all[i as int] {
                    assert(all[i as int] == t);
                }
                if exists|k: int| 0 <= k < i + 1 && all[k] == t {
                    let k = choose|k: int| 0 <= k < i + 1 && all[k] == t;
                    if k < i {
                        assert(had.contains(t));
                    }
                }
            }
        }
        i += 1;
    }
    true
}

/// Whether ids ascend from one on.
pub open spec fn ids_ascend(ids: Seq<i64>) -> bool {
    &&& forall|i: int| 0 <= i < ids.len() ==> #[trigger] ids[i] >= 1
    &&& forall|i: int, j: int| 0 <= i < j < ids.len() ==> #[trigger] ids[i] < #[trigger] ids[j]
}

/// Whether ids ascend from one on.
fn ascend(ids: &Vec<i64>) -> (r: bool)
    ensures
        r == ids_ascend(ids@),
{
    let mut i: usize = 0;
    while i < ids.len()
        invariant
            i <= ids@.len(),
            forall|k: int| 0 <= k < i ==> #[trigger] ids@[k] >= 1,
            forall|a: int, b: int| 0 <= a < b < i ==> #[trigger] ids@[a] < #[trigger] ids@[b],
        decreases ids@.len() - i,
    {
        if ids[i] < 1 {
            assert(ids@[i as int] < 1);
            return false;
        }
        if i > 0 && ids[i] <= ids[i - 1] {
            assert(ids@[i - 1] >= ids@[i as int]);
            return false;
        }
        i += 1;
    }
    true
}

/// Whether sources keep their keys.
fn check_sources(rows: &Vec<SourceRow>) -> (r: bool)
    ensures
        r == sources_keyed(rows@),
{
    let mut ids: Vec<i64> = Vec::new();
    let mut keys: Vec<String> = Vec::new();
    let mut keys2: Vec<String> = Vec::new();
    let mut i: usize = 0;
    while i < rows.len()
        invariant
            i <= rows@.len(),
            ids@.len() == i,
            forall|k: int| 0 <= k < i ==> #[trigger] ids@[k] == rows@[k].id,
            keys@.len() == i,
            forall|k: int| 0 <= k < i ==> (#[trigger] keys@[k])@ == rows@[k].base_url@,
            keys2@.len() == i,
            forall|k: int| 0 <= k < i ==> (#[trigger] keys2@[k])@ == int_text(
                rows@[k].upserted as int,
            ),
        decreases rows@.len() - i,
    {
        ids.push(rows[i].id);
        keys.push(rows[i].base_url.clone());
        keys2.push(text_of(&write_int(rows[i].upserted)));
        i += 1;
    }
    proof {
        let all = rows@;
        let views = key_views(keys@);
        assert forall|a: int, b: int| 0 <= a < b < all.len() implies (#[trigger] views[a]
            == #[trigger] views[b]) == (all[a].base_url@ == all[b].base_url@) by {
            assert(views[a] == keys@[a]@);
            assert(views[b] == keys@[b]@);
        }
        let views2 = key_views(keys2@);
        assert forall|a: int, b: int| 0 <= a < b < all.len() implies (#[trigger] views2[a]
            == #[trigger] views2[b]) == (
                int_text(all[a].upserted as int)
                == int_text(all[b].upserted as int)
            ) by {
            assert(views2[a] == keys2@[a]@);
            assert(views2[b] == keys2@[b]@);
        }
        if views.no_duplicates() {
            assert forall|a: int, b: int| 0 <= a < b < all.len() implies
                #[trigger] all[a].base_url@ != #[trigger] all[b].base_url@ by {
                assert(views[a] != views[b]);
            }
        }
        if sources_keyed(all) {
            assert forall|a: int, b: int| 0 <= a < b < views.len() implies views[a] != views[b] by {
                assert(all[a].base_url@ != all[b].base_url@);
            }
        }
        if views2.no_duplicates() {
            assert forall|a: int, b: int| 0 <= a < b < all.len() implies
                #[trigger] all[a].upserted != #[trigger] all[b].upserted by {
                assert(views2[a] != views2[b]);
                lemma_int_text_injective(all[a].upserted as int, all[b].upserted as int);
            }
        }
        if sources_keyed(all) {
            assert forall|a: int, b: int| 0 <= a < b < views2.len() implies
                views2[a] != views2[b] by {
                assert(all[a].upserted != all[b].upserted);
                lemma_int_text_injective(all[a].upserted as int, all[b].upserted as int);
            }
        }
        if ids_ascend(ids@) {
            assert forall|a: int| 0 <= a < all.len() implies (#[trigger] all[a]).id >= 1 by {
                assert(ids@[a] >= 1);
            }
            assert forall|a: int, b: int| 0 <= a < b < all.len() implies #[trigger] all[a].id
                < #[trigger] all[b].id by {
                assert(ids@[a] < ids@[b]);
            }
        }
        if sources_keyed(all) {
            assert forall|a: int| 0 <= a < ids@.len() implies #[trigger] ids@[a] >= 1 by {
                assert(all[a].id >= 1);
            }
            assert forall|a: int, b: int| 0 <= a < b < ids@.len() implies #[trigger] ids@[a]
                < #[trigger] ids@[b] by {
                assert(all[a].id < all[b].id);
            }
        }
    }
    ascend(&ids) && distinct(&keys) && distinct(&keys2)
}

/// Whether series keep their keys.
fn check_series(rows: &Vec<SeriesRow>) -> (r: bool)
    ensures
        r == series_keyed(rows@),
{
    let mut ids: Vec<i64> = Vec::new();
    let mut keys: Vec<String> = Vec::new();
    let mut i: usize = 0;
    while i < rows.len()
        invariant
            i <= rows@.len(),
            ids@.len() == i,
            forall|k: int| 0 <= k < i ==> #[trigger] ids@[k] == rows@[k].id,
            keys@.len() == i,
            forall|k: int| 0 <= k < i ==> (#[trigger] keys@[k])@ == row_key(
                rows@[k].source_id as int,
                rows@[k].slug@,
            ),
        decreases rows@.len() - i,
    {
        ids.push(rows[i].id);
        keys.push(key_of(rows[i].source_id, rows[i].slug.as_str()));
        i += 1;
    }
    proof {
        let all = rows@;
        let views = key_views(keys@);
        assert forall|a: int, b: int| 0 <= a < b < all.len() implies (#[trigger] views[a]
            == #[trigger] views[b]) == (
                row_key(all[a].source_id as int, all[a].slug@)
                == row_key(all[b].source_id as int, all[b].slug@)
            ) by {
            assert(views[a] == keys@[a]@);
            assert(views[b] == keys@[b]@);
        }
        if views.no_duplicates() {
            assert forall|a: int, b: int| 0 <= a < b < all.len() implies
                #[trigger] all[a].source_id != #[trigger] all[b].source_id
                || all[a].slug@ != all[b].slug@ by {
                assert(views[a] != views[b]);
                law_row_keys_identify(
                    all[a].source_id as int,
                    all[a].slug@,
                    all[b].source_id as int,
                    all[b].slug@,
                );
            }
        }
        if series_keyed(all) {
            assert forall|a: int, b: int| 0 <= a < b < views.len() implies views[a] != views[b] by {
                assert(all[a].source_id != all[b].source_id || all[a].slug@ != all[b].slug@);
                law_row_keys_identify(
                    all[a].source_id as int,
                    all[a].slug@,
                    all[b].source_id as int,
                    all[b].slug@,
                );
            }
        }
        if ids_ascend(ids@) {
            assert forall|a: int| 0 <= a < all.len() implies (#[trigger] all[a]).id >= 1 by {
                assert(ids@[a] >= 1);
            }
            assert forall|a: int, b: int| 0 <= a < b < all.len() implies #[trigger] all[a].id
                < #[trigger] all[b].id by {
                assert(ids@[a] < ids@[b]);
            }
        }
        if series_keyed(all) {
            assert forall|a: int| 0 <= a < ids@.len() implies #[trigger] ids@[a] >= 1 by {
                assert(all[a].id >= 1);
            }
            assert forall|a: int, b: int| 0 <= a < b < ids@.len() implies #[trigger] ids@[a]
                < #[trigger] ids@[b] by {
                assert(all[a].id < all[b].id);
            }
        }
    }
    ascend(&ids) && distinct(&keys)
}

/// Whether genre marks keep their keys.
fn check_genres(rows: &Vec<SeriesGenreRow>) -> (r: bool)
    ensures
        r == genres_keyed(rows@),
{
    let mut keys: Vec<String> = Vec::new();
    let mut i: usize = 0;
    while i < rows.len()
        invariant
            i <= rows@.len(),
            keys@.len() == i,
            forall|k: int| 0 <= k < i ==> (#[trigger] keys@[k])@ == row_key(
                rows@[k].series_id as int,
                rows@[k].genre@,
            ),
        decreases rows@.len() - i,
    {
        keys.push(key_of(rows[i].series_id, rows[i].genre.as_str()));
        i += 1;
    }
    proof {
        let all = rows@;
        let views = key_views(keys@);
        assert forall|a: int, b: int| 0 <= a < b < all.len() implies (#[trigger] views[a]
            == #[trigger] views[b]) == (
                row_key(all[a].series_id as int, all[a].genre@)
                == row_key(all[b].series_id as int, all[b].genre@)
            ) by {
            assert(views[a] == keys@[a]@);
            assert(views[b] == keys@[b]@);
        }
        if views.no_duplicates() {
            assert forall|a: int, b: int| 0 <= a < b < all.len() implies
                #[trigger] all[a].series_id != #[trigger] all[b].series_id
                || all[a].genre@ != all[b].genre@ by {
                assert(views[a] != views[b]);
                law_row_keys_identify(
                    all[a].series_id as int,
                    all[a].genre@,
                    all[b].series_id as int,
                    all[b].genre@,
                );
            }
        }
        if genres_keyed(all) {
            assert forall|a: int, b: int| 0 <= a < b < views.len() implies views[a] != views[b] by {
                assert(all[a].series_id != all[b].series_id || all[a].genre@ != all[b].genre@);
                law_row_keys_identify(
                    all[a].series_id as int,
                    all[a].genre@,
                    all[b].series_id as int,
                    all[b].genre@,
                );
            }
        }
    }
    distinct(&keys)
}

/// Whether episodes keep their keys.
fn check_episodes(rows: &Vec<EpisodeRow>) -> (r: bool)
    ensures
        r == episodes_keyed(rows@),
{
    let mut ids: Vec<i64> = Vec::new();
    let mut keys: Vec<String> = Vec::new();
    let mut i: usize = 0;
    while i < rows.len()
        invariant
            i <= rows@.len(),
            ids@.len() == i,
            forall|k: int| 0 <= k < i ==> #[trigger] ids@[k] == rows@[k].id,
            keys@.len() == i,
            forall|k: int| 0 <= k < i ==> (#[trigger] keys@[k])@ == row_key(
                rows@[k].series_id as int,
                rows@[k].url@,
            ),
        decreases rows@.len() - i,
    {
        ids.push(rows[i].id);
        keys.push(key_of(rows[i].series_id, rows[i].url.as_str()));
        i += 1;
    }
    proof {
        let all = rows@;
        let views = key_views(keys@);
        assert forall|a: int, b: int| 0 <= a < b < all.len() implies (#[trigger] views[a]
            == #[trigger] views[b]) == (
                row_key(all[a].series_id as int, all[a].url@)
                == row_key(all[b].series_id as int, all[b].url@)
            ) by {
            assert(views[a] == keys@[a]@);
            assert(views[b] == keys@[b]@);
        }
        if views.no_duplicates() {
            assert forall|a: int, b: int| 0 <= a < b < all.len() implies
                #[trigger] all[a].series_id != #[trigger] all[b].series_id
                || all[a].url@ != all[b].url@ by {
                assert(views[a] != views[b]);
                law_row_keys_identify(
                    all[a].series_id as int,
                    all[a].url@,
                    all[b].series_id as int,
                    all[b].url@,
                );
            }
        }
        if episodes_keyed(all) {
            assert forall|a: int, b: int| 0 <= a < b < views.len() implies views[a] != views[b] by {
                assert(all[a].series_id != all[b].series_id || all[a].url@ != all[b].url@);
                law_row_keys_identify(
                    all[a].series_id as int,
                    all[a].url@,
                    all[b].series_id as int,
                    all[b].url@,
                );
            }
        }
        if ids_ascend(ids@) {
            assert forall|a: int| 0 <= a < all.len() implies (#[trigger] all[a]).id >= 1 by {
                assert(ids@[a] >= 1);
            }
            assert forall|a: int, b: int| 0 <= a < b < all.len() implies #[trigger] all[a].id
                < #[trigger] all[b].id by {
                assert(ids@[a] < ids@[b]);
            }
        }
        if episodes_keyed(all) {
            assert forall|a: int| 0 <= a < ids@.len() implies #[trigger] ids@[a] >= 1 by {
                assert(all[a].id >= 1);
            }
            assert forall|a: int, b: int| 0 <= a < b < ids@.len() implies #[trigger] ids@[a]
                < #[trigger] ids@[b] by {
                assert(all[a].id < all[b].id);
            }
        }
    }
    ascend(&ids) && distinct(&keys)
}

/// Whether catalog entries keep their keys.
fn check_catalog(rows: &Vec<CatalogRow>) -> (r: bool)
    ensures
        r == catalog_keyed(rows@),
{
    let mut keys: Vec<String> = Vec::new();
    let mut i: usize = 0;
    while i < rows.len()
        invariant
            i <= rows@.len(),
            keys@.len() == i,
            forall|k: int| 0 <= k < i ==> (#[trigger] keys@[k])@ == int_text(rows@[k].id as int),
        decreases rows@.len() - i,
    {
        keys.push(text_of(&write_int(rows[i].id)));
        i += 1;
    }
    proof {
        let all = rows@;
        let views = key_views(keys@);
        assert forall|a: int, b: int| 0 <= a < b < all.len() implies (#[trigger] views[a]
            == #[trigger] views[b]) == (
                int_text(all[a].id as int)
                == int_text(all[b].id as int)
            ) by {
            assert(views[a] == keys@[a]@);
            assert(views[b] == keys@[b]@);
        }
        if views.no_duplicates() {
            assert forall|a: int, b: int| 0 <= a < b < all.len() implies
                #[trigger] all[a].id != #[trigger] all[b].id by {
                assert(views[a] != views[b]);
                lemma_int_text_injective(all[a].id as int, all[b].id as int);
            }
        }
        if catalog_keyed(all) {
            assert forall|a: int, b: int| 0 <= a < b < views.len() implies views[a] != views[b] by {
                assert(all[a].id != all[b].id);
                lemma_int_text_injective(all[a].id as int, all[b].id as int);
            }
        }
    }
    distinct(&keys)
}

/// Whether genre marks of the catalog keep their keys.
fn check_catalog_genres(rows: &Vec<CatalogGenreRow>) -> (r: bool)
    ensures
        r == catalog_genres_keyed(rows@),
{
    let mut keys: Vec<String> = Vec::new();
    let mut i: usize = 0;
    while i < rows.len()
        invariant
            i <= rows@.len(),
            keys@.len() == i,
            forall|k: int| 0 <= k < i ==> (#[trigger] keys@[k])@ == row_key(
                rows@[k].anilist_id as int,
                rows@[k].genre@,
            ),
        decreases rows@.len() - i,
    {
        keys.push(key_of(rows[i].anilist_id, rows[i].genre.as_str()));
        i += 1;
    }
    proof {
        let all = rows@;
        let views = key_views(keys@);
        assert forall|a: int, b: int| 0 <= a < b < all.len() implies (#[trigger] views[a]
            == #[trigger] views[b]) == (
                row_key(all[a].anilist_id as int, all[a].genre@)
                == row_key(all[b].anilist_id as int, all[b].genre@)
            ) by {
            assert(views[a] == keys@[a]@);
            assert(views[b] == keys@[b]@);
        }
        if views.no_duplicates() {
            assert forall|a: int, b: int| 0 <= a < b < all.len() implies
                #[trigger] all[a].anilist_id != #[trigger] all[b].anilist_id
                || all[a].genre@ != all[b].genre@ by {
                assert(views[a] != views[b]);
                law_row_keys_identify(
                    all[a].anilist_id as int,
                    all[a].genre@,
                    all[b].anilist_id as int,
                    all[b].genre@,
                );
            }
        }
        if catalog_genres_keyed(all) {
            assert forall|a: int, b: int| 0 <= a < b < views.len() implies views[a] != views[b] by {
                assert(all[a].anilist_id != all[b].anilist_id || all[a].genre@ != all[b].genre@);
                law_row_keys_identify(
                    all[a].anilist_id as int,
                    all[a].genre@,
                    all[b].anilist_id as int,
                    all[b].genre@,
                );
            }
        }
    }
    distinct(&keys)
}

/// Whether library entries keep their keys.
fn check_library(rows: &Vec<LibraryEntry>) -> (r: bool)
    ensures
        r == library_keyed(rows@),
{
    let mut keys: Vec<String> = Vec::new();
    let mut i: usize = 0;
    while i < rows.len()
        invariant
            i <= rows@.len(),
            keys@.len() == i,
            forall|k: int| 0 <= k < i ==> (#[trigger] keys@[k])@ == rows@[k].canon_key@,
        decreases rows@.len() - i,
    {
        keys.push(rows[i].canon_key.clone());
        i += 1;
    }
    proof {
        let all = rows@;
        let views = key_views(keys@);
        assert forall|a: int, b: int| 0 <= a < b < all.len() implies (#[trigger] views[a]
            == #[trigger] views[b]) == (all[a].canon_key@ == all[b].canon_key@) by {
            assert(views[a] == keys@[a]@);
            assert(views[b] == keys@[b]@);
        }
        if views.no_duplicates() {
            assert forall|a: int, b: int| 0 <= a < b < all.len() implies
                #[trigger] all[a].canon_key@ != #[trigger] all[b].canon_key@ by {
                assert(views[a] != views[b]);
            }
        }
        if library_keyed(all) {
            assert forall|a: int, b: int| 0 <= a < b < views.len() implies views[a] != views[b] by {
                assert(all[a].canon_key@ != all[b].canon_key@);
            }
        }
    }
    distinct(&keys)
}

/// Whether settings keep their keys.
fn check_settings(rows: &Vec<SettingRow>) -> (r: bool)
    ensures
        r == settings_keyed(rows@),
{
    let mut keys: Vec<String> = Vec::new();
    let mut i: usize = 0;
    while i < rows.len()
        invariant
            i <= rows@.len(),
            keys@.len() == i,
            forall|k: int| 0 <= k < i ==> (#[trigger] keys@[k])@ == rows@[k].key@,
        decreases rows@.len() - i,
    {
        keys.push(rows[i].key.clone());
        i += 1;
    }
    proof {
        let all = rows@;
        let views = key_views(keys@);
        assert forall|a: int, b: int| 0 <= a < b < all.len() implies (#[trigger] views[a]
            == #[trigger] views[b]) == (all[a].key@ == all[b].key@) by {
            assert(views[a] == keys@[a]@);
            assert(views[b] == keys@[b]@);
        }
        if views.no_duplicates() {
            assert forall|a: int, b: int| 0 <= a < b < all.len() implies
                #[trigger] all[a].key@ != #[trigger] all[b].key@ by {
                assert(views[a] != views[b]);
            }
        }
        if settings_keyed(all) {
            assert forall|a: int, b: int| 0 <= a < b < views.len() implies views[a] != views[b] by {
                assert(all[a].key@ != all[b].key@);
            }
        }
    }
    distinct(&keys)
}

impl Db {
    /// Whether every table keeps its keys, as all other functions expect it.
    pub fn check(&self) -> (r: bool)
        ensures
            r == self.well_formed(),
    {
        check_sources(&self.sources) && check_series(&self.series) && check_genres(
            &self.series_genres,
        ) && check_episodes(&self.episodes) && check_catalog(&self.catalog)
            && check_catalog_genres(&self.catalog_genres) && check_library(&self.library)
            && check_settings(&self.settings)
    }
}

} // verus!
