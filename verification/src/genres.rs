//! Genre vocabulary.
//!
//! Sites tag their series in Spanish (`Fantasía`, `Acción`), the catalog uses a
//! closed English vocabulary of nineteen genres. Both spellings of a genre map
//! onto one canonical name, so that a taste signal is not split across sources.
//! A tag without a counterpart in the catalog (`Isekai`, `Shounen`, ...) has no
//! canonical name.

use vstd::prelude::*;
use crate::text::{
    ascii_lower, ascii_text, chars_of, folded, lowercase, spells, text_of, trim_chars, trim_end,
    trim_start, trimmed, white_space,
};

verus! {

/// A letter without its accent; any other character is left alone. Covers the
/// accents that occur in Spanish tags and titles.
pub open spec fn unaccented(c: char) -> char {
    match c {
        'á' | 'à' | 'ä' | 'â' => 'a',
        'é' | 'è' | 'ë' | 'ê' => 'e',
        'í' | 'ì' | 'ï' | 'î' => 'i',
        'ó' | 'ò' | 'ö' | 'ô' => 'o',
        'ú' | 'ù' | 'ü' | 'û' => 'u',
        'ñ' => 'n',
        'Á' | 'À' | 'Ä' | 'Â' => 'A',
        'É' | 'È' | 'Ë' | 'Ê' => 'E',
        'Í' | 'Ì' | 'Ï' | 'Î' => 'I',
        'Ó' | 'Ò' | 'Ö' | 'Ô' => 'O',
        'Ú' | 'Ù' | 'Ü' | 'Û' => 'U',
        'Ñ' => 'N',
        other => other,
    }
}

/// A text with every letter freed of its accent.
pub open spec fn without_accents(s: Seq<char>) -> Seq<char> {
    s.map_values(|c: char| unaccented(c))
}

/// A letter without its accent.
fn strip_accent(c: char) -> (r: char)
    ensures
        r == unaccented(c),
{
    match c {
        'á' | 'à' | 'ä' | 'â' => 'a',
        'é' | 'è' | 'ë' | 'ê' => 'e',
        'í' | 'ì' | 'ï' | 'î' => 'i',
        'ó' | 'ò' | 'ö' | 'ô' => 'o',
        'ú' | 'ù' | 'ü' | 'û' => 'u',
        'ñ' => 'n',
        'Á' | 'À' | 'Ä' | 'Â' => 'A',
        'É' | 'È' | 'Ë' | 'Ê' => 'E',
        'Í' | 'Ì' | 'Ï' | 'Î' => 'I',
        'Ó' | 'Ò' | 'Ö' | 'Ô' => 'O',
        'Ú' | 'Ù' | 'Ü' | 'Û' => 'U',
        'Ñ' => 'N',
        other => other,
    }
}

/// A text with every letter freed of its accent.
pub fn strip_accents(s: &str) -> (r: String)
    ensures
        r@ == without_accents(s@),
{
    let chars = chars_of(s);
    let mut out = String::new();
    let mut i: usize = 0;
    while i < chars.len()
        invariant
            i <= chars.len(),
            chars@ == s@,
            out@ == without_accents(s@.take(i as int)),
        decreases chars.len() - i,
    {
        out.push(strip_accent(chars[i]));
        i += 1;
        assert(s@.take(i as int) == s@.take(i - 1).push(s@[i - 1]));
        assert(out@ =~= without_accents(s@.take(i as int)));
    }
    assert(s@.take(i as int) == s@);
    out
}

/// The canonical genre that a tag written without accents, in lower case and
/// without surrounding white space stands for.
pub open spec fn genre_named(name: Seq<char>) -> Option<Seq<char>> {
    if name == "accion"@ || name == "action"@ {
        Some("Action"@)
    } else if name == "aventura"@ || name == "adventure"@ {
        Some("Adventure"@)
    } else if name == "comedia"@ || name == "comedy"@ {
        Some("Comedy"@)
    } else if name == "drama"@ {
        Some("Drama"@)
    } else if name == "ecchi"@ {
        Some("Ecchi"@)
    } else if name == "fantasia"@ || name == "fantasy"@ {
        Some("Fantasy"@)
    } else if name == "hentai"@ {
        Some("Hentai"@)
    } else if name == "terror"@ || name == "horror"@ {
        Some("Horror"@)
    } else if name == "mahou shoujo"@ {
        Some("Mahou Shoujo"@)
    } else if name == "mecha"@ {
        Some("Mecha"@)
    } else if name == "musica"@ || name == "music"@ {
        Some("Music"@)
    } else if name == "misterio"@ || name == "mystery"@ {
        Some("Mystery"@)
    } else if name == "psicologico"@ || name == "psychological"@ {
        Some("Psychological"@)
    } else if name == "romance"@ {
        Some("Romance"@)
    } else if name == "ciencia ficcion"@ || name == "sci-fi"@ || name == "scifi"@ {
        Some("Sci-Fi"@)
    } else if name == "recuentos de la vida"@ || name == "slice of life"@ {
        Some("Slice of Life"@)
    } else if name == "deportes"@ || name == "sports"@ {
        Some("Sports"@)
    } else if name == "supernatural"@ {
        Some("Supernatural"@)
    } else if name == "thriller"@ {
        Some("Thriller"@)
    } else {
        None
    }
}

/// The form in which tags are compared: no surrounding white space, no accents,
/// lower case.
pub open spec fn tag_name(raw: Seq<char>) -> Seq<char> {
    lowercase(without_accents(trimmed(raw)))
}

/// The canonical genre that a raw tag stands for, whatever its case, accents
/// and surrounding white space, or nothing if it has none.
pub open spec fn canonical(raw: Seq<char>) -> Option<Seq<char>> {
    genre_named(tag_name(raw))
}

/// The canonical genre of a tag in its compared form.
pub fn genre_of_name(normalized: &str) -> (r: Option<&'static str>)
    ensures
        r is Some <==> genre_named(normalized@) is Some,
        r is Some ==> genre_named(normalized@) == Some(r->0@),
{
    let name = chars_of(normalized);
    if spells(&name, "accion") || spells(&name, "action") {
        Some("Action")
    } else if spells(&name, "aventura") || spells(&name, "adventure") {
        Some("Adventure")
    } else if spells(&name, "comedia") || spells(&name, "comedy") {
        Some("Comedy")
    } else if spells(&name, "drama") {
        Some("Drama")
    } else if spells(&name, "ecchi") {
        Some("Ecchi")
    } else if spells(&name, "fantasia") || spells(&name, "fantasy") {
        Some("Fantasy")
    } else if spells(&name, "hentai") {
        Some("Hentai")
    } else if spells(&name, "terror") || spells(&name, "horror") {
        Some("Horror")
    } else if spells(&name, "mahou shoujo") {
        Some("Mahou Shoujo")
    } else if spells(&name, "mecha") {
        Some("Mecha")
    } else if spells(&name, "musica") || spells(&name, "music") {
        Some("Music")
    } else if spells(&name, "misterio") || spells(&name, "mystery") {
        Some("Mystery")
    } else if spells(&name, "psicologico") || spells(&name, "psychological") {
        Some("Psychological")
    } else if spells(&name, "romance") {
        Some("Romance")
    } else if spells(&name, "ciencia ficcion") || spells(&name, "sci-fi") || spells(&name, "scifi") {
        Some("Sci-Fi")
    } else if spells(&name, "recuentos de la vida") || spells(&name, "slice of life") {
        Some("Slice of Life")
    } else if spells(&name, "deportes") || spells(&name, "sports") {
        Some("Sports")
    } else if spells(&name, "supernatural") {
        Some("Supernatural")
    } else if spells(&name, "thriller") {
        Some("Thriller")
    } else {
        None
    }
}

/// Maps a raw genre tag of either vocabulary onto the catalog's canonical
/// name, or `None` if the tag has no counterpart there.
pub fn canonical_genre(raw: &str) -> (r: Option<&'static str>)
    ensures
        r is Some <==> canonical(raw@) is Some,
        r is Some ==> canonical(raw@) == Some(r->0@),
{
    let chars = chars_of(raw);
    let tag = text_of(&trim_chars(&chars));
    let plain = strip_accents(tag.as_str());
    let normalized = plain.as_str().to_lowercase();
    genre_of_name(normalized.as_str())
}

/// Stripping accents a second time changes nothing.
pub proof fn law_strip_accents_idempotent(s: Seq<char>)
    ensures
        without_accents(without_accents(s)) == without_accents(s),
{
    assert(without_accents(without_accents(s)) =~= without_accents(s));
}

/// Whether a text is one of the nineteen genres of the catalog.
pub open spec fn catalog_genre(g: Seq<char>) -> bool {
    ||| g == "Action"@
    ||| g == "Adventure"@
    ||| g == "Comedy"@
    ||| g == "Drama"@
    ||| g == "Ecchi"@
    ||| g == "Fantasy"@
    ||| g == "Hentai"@
    ||| g == "Horror"@
    ||| g == "Mahou Shoujo"@
    ||| g == "Mecha"@
    ||| g == "Music"@
    ||| g == "Mystery"@
    ||| g == "Psychological"@
    ||| g == "Romance"@
    ||| g == "Sci-Fi"@
    ||| g == "Slice of Life"@
    ||| g == "Sports"@
    ||| g == "Supernatural"@
    ||| g == "Thriller"@
}

/// A plain name is compared in lower case.
proof fn lemma_plain_tag(g: Seq<char>, name: Seq<char>)
    requires
        g.len() > 0,
        ascii_text(g),
        g[0] != ' ',
        g.last() != ' ',
        '!' <= g[0],
        g[0] <= '~',
        '!' <= g.last(),
        g.last() <= '~',
        folded(g) == name,
    ensures
        tag_name(g) == name,
{
    assert(trim_start(g) == g);
    assert(trim_end(g) == g);
    assert forall|i: int| 0 <= i < g.len() implies unaccented(#[trigger] g[i]) == g[i] by {
        assert(g[i] < '\u{80}');
    }
    assert(without_accents(g) =~= g);
}

proof fn lemma_fixed_action()
    ensures
        tag_name("Action"@) == "action"@,
        genre_named("action"@) == Some("Action"@),
{
    reveal_strlit("Action");
    reveal_strlit("accion");
    reveal_strlit("action");
    assert(folded("Action"@) =~= "action"@);
    lemma_plain_tag("Action"@, "action"@);
    assert("accion"@[2] != "action"@[2]);
}

proof fn lemma_fixed_adventure()
    ensures
        tag_name("Adventure"@) == "adventure"@,
        genre_named("adventure"@) == Some("Adventure"@),
{
    reveal_strlit("Adventure");
    reveal_strlit("accion");
    reveal_strlit("action");
    reveal_strlit("aventura");
    reveal_strlit("adventure");
    assert(folded("Adventure"@) =~= "adventure"@);
    lemma_plain_tag("Adventure"@, "adventure"@);
}

proof fn lemma_fixed_comedy()
    ensures
        tag_name("Comedy"@) == "comedy"@,
        genre_named("comedy"@) == Some("Comedy"@),
{
    reveal_strlit("Comedy");
    reveal_strlit("accion");
    reveal_strlit("action");
    reveal_strlit("aventura");
    reveal_strlit("adventure");
    reveal_strlit("comedia");
    reveal_strlit("comedy");
    assert(folded("Comedy"@) =~= "comedy"@);
    lemma_plain_tag("Comedy"@, "comedy"@);
    assert("accion"@[0] != "comedy"@[0]);
    assert("action"@[0] != "comedy"@[0]);
}

proof fn lemma_fixed_drama()
    ensures
        tag_name("Drama"@) == "drama"@,
        genre_named("drama"@) == Some("Drama"@),
{
    reveal_strlit("Drama");
    reveal_strlit("accion");
    reveal_strlit("action");
    reveal_strlit("aventura");
    reveal_strlit("adventure");
    reveal_strlit("comedia");
    reveal_strlit("comedy");
    reveal_strlit("drama");
    assert(folded("Drama"@) =~= "drama"@);
    lemma_plain_tag("Drama"@, "drama"@);
}

proof fn lemma_fixed_ecchi()
    ensures
        tag_name("Ecchi"@) == "ecchi"@,
        genre_named("ecchi"@) == Some("Ecchi"@),
{
    reveal_strlit("Ecchi");
    reveal_strlit("accion");
    reveal_strlit("action");
    reveal_strlit("aventura");
    reveal_strlit("adventure");
    reveal_strlit("comedia");
    reveal_strlit("comedy");
    reveal_strlit("drama");
    reveal_strlit("ecchi");
    assert(folded("Ecchi"@) =~= "ecchi"@);
    lemma_plain_tag("Ecchi"@, "ecchi"@);
    assert("drama"@[0] != "ecchi"@[0]);
}

proof fn lemma_fixed_fantasy()
    ensures
        tag_name("Fantasy"@) == "fantasy"@,
        genre_named("fantasy"@) == Some("Fantasy"@),
{
    reveal_strlit("Fantasy");
    reveal_strlit("accion");
    reveal_strlit("action");
    reveal_strlit("aventura");
    reveal_strlit("adventure");
    reveal_strlit("comedia");
    reveal_strlit("comedy");
    reveal_strlit("drama");
    reveal_strlit("ecchi");
    reveal_strlit("fantasia");
    reveal_strlit("fantasy");
    assert(folded("Fantasy"@) =~= "fantasy"@);
    lemma_plain_tag("Fantasy"@, "fantasy"@);
    assert("comedia"@[0] != "fantasy"@[0]);
}

proof fn lemma_fixed_hentai()
    ensures
        tag_name("Hentai"@) == "hentai"@,
        genre_named("hentai"@) == Some("Hentai"@),
{
    reveal_strlit("Hentai");
    reveal_strlit("accion");
    reveal_strlit("action");
    reveal_strlit("aventura");
    reveal_strlit("adventure");
    reveal_strlit("comedia");
    reveal_strlit("comedy");
    reveal_strlit("drama");
    reveal_strlit("ecchi");
    reveal_strlit("fantasia");
    reveal_strlit("fantasy");
    reveal_strlit("hentai");
    assert(folded("Hentai"@) =~= "hentai"@);
    lemma_plain_tag("Hentai"@, "hentai"@);
    assert("accion"@[0] != "hentai"@[0]);
    assert("action"@[0] != "hentai"@[0]);
    assert("comedy"@[0] != "hentai"@[0]);
}

proof fn lemma_fixed_horror()
    ensures
        tag_name("Horror"@) == "horror"@,
        genre_named("horror"@) == Some("Horror"@),
{
    reveal_strlit("Horror");
    reveal_strlit("accion");
    reveal_strlit("action");
    reveal_strlit("aventura");
    reveal_strlit("adventure");
    reveal_strlit("comedia");
    reveal_strlit("comedy");
    reveal_strlit("drama");
    reveal_strlit("ecchi");
    reveal_strlit("fantasia");
    reveal_strlit("fantasy");
    reveal_strlit("hentai");
    reveal_strlit("terror");
    reveal_strlit("horror");
    assert(folded("Horror"@) =~= "horror"@);
    lemma_plain_tag("Horror"@, "horror"@);
    assert("accion"@[0] != "horror"@[0]);
    assert("action"@[0] != "horror"@[0]);
    assert("comedy"@[0] != "horror"@[0]);
    assert("hentai"@[1] != "horror"@[1]);
    assert("terror"@[0] != "horror"@[0]);
}

proof fn lemma_fixed_mahou_shoujo()
    ensures
        tag_name("Mahou Shoujo"@) == "mahou shoujo"@,
        genre_named("mahou shoujo"@) == Some("Mahou Shoujo"@),
{
    reveal_strlit("Mahou Shoujo");
    reveal_strlit("accion");
    reveal_strlit("action");
    reveal_strlit("aventura");
    reveal_strlit("adventure");
    reveal_strlit("comedia");
    reveal_strlit("comedy");
    reveal_strlit("drama");
    reveal_strlit("ecchi");
    reveal_strlit("fantasia");
    reveal_strlit("fantasy");
    reveal_strlit("hentai");
    reveal_strlit("terror");
    reveal_strlit("horror");
    reveal_strlit("mahou shoujo");
    assert(folded("Mahou Shoujo"@) =~= "mahou shoujo"@);
    lemma_plain_tag("Mahou Shoujo"@, "mahou shoujo"@);
}

proof fn lemma_fixed_mecha()
    ensures
        tag_name("Mecha"@) == "mecha"@,
        genre_named("mecha"@) == Some("Mecha"@),
{
    reveal_strlit("Mecha");
    reveal_strlit("accion");
    reveal_strlit("action");
    reveal_strlit("aventura");
    reveal_strlit("adventure");
    reveal_strlit("comedia");
    reveal_strlit("comedy");
    reveal_strlit("drama");
    reveal_strlit("ecchi");
    reveal_strlit("fantasia");
    reveal_strlit("fantasy");
    reveal_strlit("hentai");
    reveal_strlit("terror");
    reveal_strlit("horror");
    reveal_strlit("mahou shoujo");
    reveal_strlit("mecha");
    assert(folded("Mecha"@) =~= "mecha"@);
    lemma_plain_tag("Mecha"@, "mecha"@);
    assert("drama"@[0] != "mecha"@[0]);
    assert("ecchi"@[0] != "mecha"@[0]);
}

proof fn lemma_fixed_music()
    ensures
        tag_name("Music"@) == "music"@,
        genre_named("music"@) == Some("Music"@),
{
    reveal_strlit("Music");
    reveal_strlit("accion");
    reveal_strlit("action");
    reveal_strlit("aventura");
    reveal_strlit("adventure");
    reveal_strlit("comedia");
    reveal_strlit("comedy");
    reveal_strlit("drama");
    reveal_strlit("ecchi");
    reveal_strlit("fantasia");
    reveal_strlit("fantasy");
    reveal_strlit("hentai");
    reveal_strlit("terror");
    reveal_strlit("horror");
    reveal_strlit("mahou shoujo");
    reveal_strlit("mecha");
    reveal_strlit("musica");
    reveal_strlit("music");
    assert(folded("Music"@) =~= "music"@);
    lemma_plain_tag("Music"@, "music"@);
    assert("drama"@[0] != "music"@[0]);
    assert("ecchi"@[0] != "music"@[0]);
    assert("mecha"@[1] != "music"@[1]);
}

proof fn lemma_fixed_mystery()
    ensures
        tag_name("Mystery"@) == "mystery"@,
        genre_named("mystery"@) == Some("Mystery"@),
{
    reveal_strlit("Mystery");
    reveal_strlit("accion");
    reveal_strlit("action");
    reveal_strlit("aventura");
    reveal_strlit("adventure");
    reveal_strlit("comedia");
    reveal_strlit("comedy");
    reveal_strlit("drama");
    reveal_strlit("ecchi");
    reveal_strlit("fantasia");
    reveal_strlit("fantasy");
    reveal_strlit("hentai");
    reveal_strlit("terror");
    reveal_strlit("horror");
    reveal_strlit("mahou shoujo");
    reveal_strlit("mecha");
    reveal_strlit("musica");
    reveal_strlit("music");
    reveal_strlit("misterio");
    reveal_strlit("mystery");
    assert(folded("Mystery"@) =~= "mystery"@);
    lemma_plain_tag("Mystery"@, "mystery"@);
    assert("comedia"@[0] != "mystery"@[0]);
    assert("fantasy"@[0] != "mystery"@[0]);
}

proof fn lemma_fixed_psychological()
    ensures
        tag_name("Psychological"@) == "psychological"@,
        genre_named("psychological"@) == Some("Psychological"@),
{
    reveal_strlit("Psychological");
    reveal_strlit("accion");
    reveal_strlit("action");
    reveal_strlit("aventura");
    reveal_strlit("adventure");
    reveal_strlit("comedia");
    reveal_strlit("comedy");
    reveal_strlit("drama");
    reveal_strlit("ecchi");
    reveal_strlit("fantasia");
    reveal_strlit("fantasy");
    reveal_strlit("hentai");
    reveal_strlit("terror");
    reveal_strlit("horror");
    reveal_strlit("mahou shoujo");
    reveal_strlit("mecha");
    reveal_strlit("musica");
    reveal_strlit("music");
    reveal_strlit("misterio");
    reveal_strlit("mystery");
    reveal_strlit("psicologico");
    reveal_strlit("psychological");
    assert(folded("Psychological"@) =~= "psychological"@);
    lemma_plain_tag("Psychological"@, "psychological"@);
}

proof fn lemma_fixed_romance()
    ensures
        tag_name("Romance"@) == "romance"@,
        genre_named("romance"@) == Some("Romance"@),
{
    reveal_strlit("Romance");
    reveal_strlit("accion");
    reveal_strlit("action");
    reveal_strlit("aventura");
    reveal_strlit("adventure");
    reveal_strlit("comedia");
    reveal_strlit("comedy");
    reveal_strlit("drama");
    reveal_strlit("ecchi");
    reveal_strlit("fantasia");
    reveal_strlit("fantasy");
    reveal_strlit("hentai");
    reveal_strlit("terror");
    reveal_strlit("horror");
    reveal_strlit("mahou shoujo");
    reveal_strlit("mecha");
    reveal_strlit("musica");
    reveal_strlit("music");
    reveal_strlit("misterio");
    reveal_strlit("mystery");
    reveal_strlit("psicologico");
    reveal_strlit("psychological");
    reveal_strlit("romance");
    assert(folded("Romance"@) =~= "romance"@);
    lemma_plain_tag("Romance"@, "romance"@);
    assert("comedia"@[0] != "romance"@[0]);
    assert("fantasy"@[0] != "romance"@[0]);
    assert("mystery"@[0] != "romance"@[0]);
}

proof fn lemma_fixed_sci_fi()
    ensures
        tag_name("Sci-Fi"@) == "sci-fi"@,
        genre_named("sci-fi"@) == Some("Sci-Fi"@),
{
    reveal_strlit("Sci-Fi");
    reveal_strlit("accion");
    reveal_strlit("action");
    reveal_strlit("aventura");
    reveal_strlit("adventure");
    reveal_strlit("comedia");
    reveal_strlit("comedy");
    reveal_strlit("drama");
    reveal_strlit("ecchi");
    reveal_strlit("fantasia");
    reveal_strlit("fantasy");
    reveal_strlit("hentai");
    reveal_strlit("terror");
    reveal_strlit("horror");
    reveal_strlit("mahou shoujo");
    reveal_strlit("mecha");
    reveal_strlit("musica");
    reveal_strlit("music");
    reveal_strlit("misterio");
    reveal_strlit("mystery");
    reveal_strlit("psicologico");
    reveal_strlit("psychological");
    reveal_strlit("romance");
    reveal_strlit("ciencia ficcion");
    reveal_strlit("sci-fi");
    assert(folded("Sci-Fi"@) =~= "sci-fi"@);
    lemma_plain_tag("Sci-Fi"@, "sci-fi"@);
    assert("accion"@[0] != "sci-fi"@[0]);
    assert("action"@[0] != "sci-fi"@[0]);
    assert("comedy"@[0] != "sci-fi"@[0]);
    assert("hentai"@[0] != "sci-fi"@[0]);
    assert("terror"@[0] != "sci-fi"@[0]);
    assert("horror"@[0] != "sci-fi"@[0]);
    assert("musica"@[0] != "sci-fi"@[0]);
}

proof fn lemma_fixed_slice_of_life()
    ensures
        tag_name("Slice of Life"@) == "slice of life"@,
        genre_named("slice of life"@) == Some("Slice of Life"@),
{
    reveal_strlit("Slice of Life");
    reveal_strlit("accion");
    reveal_strlit("action");
    reveal_strlit("aventura");
    reveal_strlit("adventure");
    reveal_strlit("comedia");
    reveal_strlit("comedy");
    reveal_strlit("drama");
    reveal_strlit("ecchi");
    reveal_strlit("fantasia");
    reveal_strlit("fantasy");
    reveal_strlit("hentai");
    reveal_strlit("terror");
    reveal_strlit("horror");
    reveal_strlit("mahou shoujo");
    reveal_strlit("mecha");
    reveal_strlit("musica");
    reveal_strlit("music");
    reveal_strlit("misterio");
    reveal_strlit("mystery");
    reveal_strlit("psicologico");
    reveal_strlit("psychological");
    reveal_strlit("romance");
    reveal_strlit("ciencia ficcion");
    reveal_strlit("sci-fi");
    reveal_strlit("scifi");
    reveal_strlit("recuentos de la vida");
    reveal_strlit("slice of life");
    assert(folded("Slice of Life"@) =~= "slice of life"@);
    lemma_plain_tag("Slice of Life"@, "slice of life"@);
    assert("psychological"@[0] != "slice of life"@[0]);
}

proof fn lemma_fixed_sports()
    ensures
        tag_name("Sports"@) == "sports"@,
        genre_named("sports"@) == Some("Sports"@),
{
    reveal_strlit("Sports");
    reveal_strlit("accion");
    reveal_strlit("action");
    reveal_strlit("aventura");
    reveal_strlit("adventure");
    reveal_strlit("comedia");
    reveal_strlit("comedy");
    reveal_strlit("drama");
    reveal_strlit("ecchi");
    reveal_strlit("fantasia");
    reveal_strlit("fantasy");
    reveal_strlit("hentai");
    reveal_strlit("terror");
    reveal_strlit("horror");
    reveal_strlit("mahou shoujo");
    reveal_strlit("mecha");
    reveal_strlit("musica");
    reveal_strlit("music");
    reveal_strlit("misterio");
    reveal_strlit("mystery");
    reveal_strlit("psicologico");
    reveal_strlit("psychological");
    reveal_strlit("romance");
    reveal_strlit("ciencia ficcion");
    reveal_strlit("sci-fi");
    reveal_strlit("scifi");
    reveal_strlit("recuentos de la vida");
    reveal_strlit("slice of life");
    reveal_strlit("deportes");
    reveal_strlit("sports");
    assert(folded("Sports"@) =~= "sports"@);
    lemma_plain_tag("Sports"@, "sports"@);
    assert("accion"@[0] != "sports"@[0]);
    assert("action"@[0] != "sports"@[0]);
    assert("comedy"@[0] != "sports"@[0]);
    assert("hentai"@[0] != "sports"@[0]);
    assert("terror"@[0] != "sports"@[0]);
    assert("horror"@[0] != "sports"@[0]);
    assert("musica"@[0] != "sports"@[0]);
    assert("sci-fi"@[1] != "sports"@[1]);
}

proof fn lemma_fixed_supernatural()
    ensures
        tag_name("Supernatural"@) == "supernatural"@,
        genre_named("supernatural"@) == Some("Supernatural"@),
{
    reveal_strlit("Supernatural");
    reveal_strlit("accion");
    reveal_strlit("action");
    reveal_strlit("aventura");
    reveal_strlit("adventure");
    reveal_strlit("comedia");
    reveal_strlit("comedy");
    reveal_strlit("drama");
    reveal_strlit("ecchi");
    reveal_strlit("fantasia");
    reveal_strlit("fantasy");
    reveal_strlit("hentai");
    reveal_strlit("terror");
    reveal_strlit("horror");
    reveal_strlit("mahou shoujo");
    reveal_strlit("mecha");
    reveal_strlit("musica");
    reveal_strlit("music");
    reveal_strlit("misterio");
    reveal_strlit("mystery");
    reveal_strlit("psicologico");
    reveal_strlit("psychological");
    reveal_strlit("romance");
    reveal_strlit("ciencia ficcion");
    reveal_strlit("sci-fi");
    reveal_strlit("scifi");
    reveal_strlit("recuentos de la vida");
    reveal_strlit("slice of life");
    reveal_strlit("deportes");
    reveal_strlit("sports");
    reveal_strlit("supernatural");
    assert(folded("Supernatural"@) =~= "supernatural"@);
    lemma_plain_tag("Supernatural"@, "supernatural"@);
    assert("mahou shoujo"@[0] != "supernatural"@[0]);
}

proof fn lemma_fixed_thriller()
    ensures
        tag_name("Thriller"@) == "thriller"@,
        genre_named("thriller"@) == Some("Thriller"@),
{
    reveal_strlit("Thriller");
    reveal_strlit("accion");
    reveal_strlit("action");
    reveal_strlit("aventura");
    reveal_strlit("adventure");
    reveal_strlit("comedia");
    reveal_strlit("comedy");
    reveal_strlit("drama");
    reveal_strlit("ecchi");
    reveal_strlit("fantasia");
    reveal_strlit("fantasy");
    reveal_strlit("hentai");
    reveal_strlit("terror");
    reveal_strlit("horror");
    reveal_strlit("mahou shoujo");
    reveal_strlit("mecha");
    reveal_strlit("musica");
    reveal_strlit("music");
    reveal_strlit("misterio");
    reveal_strlit("mystery");
    reveal_strlit("psicologico");
    reveal_strlit("psychological");
    reveal_strlit("romance");
    reveal_strlit("ciencia ficcion");
    reveal_strlit("sci-fi");
    reveal_strlit("scifi");
    reveal_strlit("recuentos de la vida");
    reveal_strlit("slice of life");
    reveal_strlit("deportes");
    reveal_strlit("sports");
    reveal_strlit("supernatural");
    reveal_strlit("thriller");
    assert(folded("Thriller"@) =~= "thriller"@);
    lemma_plain_tag("Thriller"@, "thriller"@);
    assert("aventura"@[0] != "thriller"@[0]);
    assert("fantasia"@[0] != "thriller"@[0]);
    assert("misterio"@[0] != "thriller"@[0]);
    assert("deportes"@[0] != "thriller"@[0]);
}

/// A canonical genre is one of the catalog's, and stands for itself.
pub proof fn law_canonical_is_fixed(raw: Seq<char>)
    ensures
        canonical(raw) matches Some(g) ==> catalog_genre(g) && canonical(g) == Some(g),
{
    lemma_fixed_action();
    lemma_fixed_adventure();
    lemma_fixed_comedy();
    lemma_fixed_drama();
    lemma_fixed_ecchi();
    lemma_fixed_fantasy();
    lemma_fixed_hentai();
    lemma_fixed_horror();
    lemma_fixed_mahou_shoujo();
    lemma_fixed_mecha();
    lemma_fixed_music();
    lemma_fixed_mystery();
    lemma_fixed_psychological();
    lemma_fixed_romance();
    lemma_fixed_sci_fi();
    lemma_fixed_slice_of_life();
    lemma_fixed_sports();
    lemma_fixed_supernatural();
    lemma_fixed_thriller();
}

/// White space around a tag does not count, one character at a time.
pub proof fn law_canonical_ignores_padding(raw: Seq<char>, c: char)
    requires
        white_space(c),
    ensures
        canonical(seq![c] + raw) == canonical(raw),
        canonical(raw.push(c)) == canonical(raw),
{
    assert((seq![c] + raw).drop_first() =~= raw);
    lemma_trim_pushed(raw, c);
}

proof fn lemma_trim_pushed(s: Seq<char>, c: char)
    requires
        white_space(c),
    ensures
        trimmed(s.push(c)) == trimmed(s),
    decreases s.len(),
{
    if s.len() == 0 {
        assert(s.push(c).drop_first() =~= s);
    } else if white_space(s[0]) {
        assert(s.push(c).drop_first() =~= s.drop_first().push(c));
        lemma_trim_pushed(s.drop_first(), c);
    } else {
        assert(s.push(c).drop_last() =~= s);
    }
}

proof fn lemma_trim_same(a: Seq<char>, b: Seq<char>, f: spec_fn(char) -> char)
    requires
        a.map_values(f) == b.map_values(f),
        forall|x: char, y: char| #[trigger] f(x) == #[trigger] f(y) ==> white_space(x) == white_space(y),
    ensures
        trim_start(a).map_values(f) == trim_start(b).map_values(f),
        trim_end(a).map_values(f) == trim_end(b).map_values(f),
    decreases a.len(),
{
    assert(a.len() == a.map_values(f).len());
    assert(b.len() == b.map_values(f).len());
    if a.len() > 0 {
        assert(a.map_values(f)[0] == f(a[0]));
        assert(b.map_values(f)[0] == f(b[0]));
        let n = a.len() - 1;
        assert(a.map_values(f)[n] == f(a[n]));
        assert(b.map_values(f)[n] == f(b[n]));
        assert(a.drop_first().map_values(f) =~= a.map_values(f).drop_first());
        assert(b.drop_first().map_values(f) =~= b.map_values(f).drop_first());
        assert(a.drop_last().map_values(f) =~= a.map_values(f).drop_last());
        assert(b.drop_last().map_values(f) =~= b.map_values(f).drop_last());
        lemma_trim_same(a.drop_first(), b.drop_first(), f);
        lemma_trim_same(a.drop_last(), b.drop_last(), f);
    }
}

/// Accents do not count.
pub proof fn law_canonical_ignores_accents(raw: Seq<char>)
    ensures
        canonical(without_accents(raw)) == canonical(raw),
{
    let f = |c: char| unaccented(c);
    let plain = without_accents(raw);
    assert(plain.map_values(f) =~= raw.map_values(f));
    assert forall|x: char, y: char| #[trigger] f(x) == #[trigger] f(y) implies white_space(x)
        == white_space(y) by {
        lemma_unaccented_visible(x);
        lemma_unaccented_visible(y);
    }
    lemma_trim_same(plain, raw, f);
    lemma_trim_same(trim_start(plain), trim_start(raw), f);
}

proof fn lemma_unaccented_visible(c: char)
    ensures
        white_space(unaccented(c)) == white_space(c),
{
}

/// Whether lower-casing gives the same for a text whose ASCII capitals have been
/// lowered before.
pub open spec fn ascii_case_lowered(s: Seq<char>) -> bool {
    lowercase(folded(s)) == lowercase(s)
}

/// Lower-casing gives the same for an ASCII text whose capitals have been lowered
/// before.
pub proof fn law_ascii_case_is_lowered(s: Seq<char>)
    requires
        ascii_text(s),
    ensures
        ascii_case_lowered(s),
{
    let t = folded(s);
    assert forall|i: int| 0 <= i < t.len() implies (#[trigger] t[i]) < '\u{80}' by {
        assert(s[i] < '\u{80}');
    }
    assert(folded(t) =~= t);
}

/// The case of ASCII letters does not count in a tag, wherever lower-casing gives
/// the same for its form with the ASCII capitals lowered before, as it does in
/// one that is ASCII but for its accents.
pub proof fn law_canonical_ignores_case(a: Seq<char>, b: Seq<char>)
    requires
        folded(a) == folded(b),
        ascii_text(without_accents(trimmed(a))) || ascii_case_lowered(without_accents(trimmed(a))),
        ascii_text(without_accents(trimmed(b))) || ascii_case_lowered(without_accents(trimmed(b))),
    ensures
        canonical(a) == canonical(b),
{
    let f = |c: char| ascii_lower(c);
    assert(a.map_values(f) =~= folded(a));
    assert(b.map_values(f) =~= folded(b));
    lemma_trim_same(a, b, f);
    lemma_trim_same(trim_start(a), trim_start(b), f);
    let x = trimmed(a);
    let y = trimmed(b);
    assert(x.len() == x.map_values(f).len());
    assert(y.len() == y.map_values(f).len());
    assert forall|i: int| 0 <= i < x.len() implies ascii_lower(unaccented(#[trigger] x[i]))
        == ascii_lower(unaccented(y[i])) by {
        assert(x.map_values(f)[i] == f(x[i]));
        assert(y.map_values(f)[i] == f(y[i]));
    }
    assert(folded(without_accents(x)) =~= folded(without_accents(y)));
    if ascii_text(without_accents(x)) {
        law_ascii_case_is_lowered(without_accents(x));
    }
    if ascii_text(without_accents(y)) {
        law_ascii_case_is_lowered(without_accents(y));
    }
}

} // verus!
