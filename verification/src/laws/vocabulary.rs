//! The words that the library knows: genres in two languages, formats, and what
//! sets a part of a show apart.

use vstd::prelude::*;
use crate::db::franchise::{
    base_title, colon, display_title, format_minutes, franchise, parent_franchise, part_word,
    shouted, shown_rather, without_part,
};
use crate::genres::{canonical, catalog_genre, genre_named, unaccented, without_accents};
use crate::laws::seasons::{ordinal_ending, season_name, season_numeral};
use crate::laws::titles::{plain_char, plain_words};
use crate::matching::{normalized, ordinal, season_marker, title_words};
use crate::text::{
    ascii_int, ascii_lower, ascii_text, folded, join, law_split_undoes_join, lower_case, precedes,
    trimmed, upper_case, uppercase, white_space, words, WordKind,
};

verus! {

/// The names of a genre of the catalog, in Spanish and in English, in small
/// letters and without accents.
pub open spec fn names_of_genre(genre: Seq<char>) -> Seq<Seq<char>> {
    if genre == "Action"@ {
        seq!["accion"@, "action"@]
    } else if genre == "Adventure"@ {
        seq!["aventura"@, "adventure"@]
    } else if genre == "Comedy"@ {
        seq!["comedia"@, "comedy"@]
    } else if genre == "Drama"@ {
        seq!["drama"@]
    } else if genre == "Ecchi"@ {
        seq!["ecchi"@]
    } else if genre == "Fantasy"@ {
        seq!["fantasia"@, "fantasy"@]
    } else if genre == "Hentai"@ {
        seq!["hentai"@]
    } else if genre == "Horror"@ {
        seq!["terror"@, "horror"@]
    } else if genre == "Mahou Shoujo"@ {
        seq!["mahou shoujo"@]
    } else if genre == "Mecha"@ {
        seq!["mecha"@]
    } else if genre == "Music"@ {
        seq!["musica"@, "music"@]
    } else if genre == "Mystery"@ {
        seq!["misterio"@, "mystery"@]
    } else if genre == "Psychological"@ {
        seq!["psicologico"@, "psychological"@]
    } else if genre == "Romance"@ {
        seq!["romance"@]
    } else if genre == "Sci-Fi"@ {
        seq!["ciencia ficcion"@, "sci-fi"@, "scifi"@]
    } else if genre == "Slice of Life"@ {
        seq!["recuentos de la vida"@, "slice of life"@]
    } else if genre == "Sports"@ {
        seq!["deportes"@, "sports"@]
    } else if genre == "Supernatural"@ {
        seq!["supernatural"@]
    } else if genre == "Thriller"@ {
        seq!["thriller"@]
    } else {
        Seq::empty()
    }
}

proof fn lemma_genre_names()
    ensures
        genre_named("accion"@) == Some("Action"@),
        genre_named("action"@) == Some("Action"@),
        genre_named("aventura"@) == Some("Adventure"@),
        genre_named("adventure"@) == Some("Adventure"@),
        genre_named("comedia"@) == Some("Comedy"@),
        genre_named("comedy"@) == Some("Comedy"@),
        genre_named("drama"@) == Some("Drama"@),
        genre_named("ecchi"@) == Some("Ecchi"@),
        genre_named("fantasia"@) == Some("Fantasy"@),
        genre_named("fantasy"@) == Some("Fantasy"@),
        genre_named("hentai"@) == Some("Hentai"@),
        genre_named("terror"@) == Some("Horror"@),
        genre_named("horror"@) == Some("Horror"@),
        genre_named("mahou shoujo"@) == Some("Mahou Shoujo"@),
        genre_named("mecha"@) == Some("Mecha"@),
        genre_named("musica"@) == Some("Music"@),
        genre_named("music"@) == Some("Music"@),
        genre_named("misterio"@) == Some("Mystery"@),
        genre_named("mystery"@) == Some("Mystery"@),
        genre_named("psicologico"@) == Some("Psychological"@),
        genre_named("psychological"@) == Some("Psychological"@),
        genre_named("romance"@) == Some("Romance"@),
        genre_named("ciencia ficcion"@) == Some("Sci-Fi"@),
        genre_named("sci-fi"@) == Some("Sci-Fi"@),
        genre_named("scifi"@) == Some("Sci-Fi"@),
        genre_named("recuentos de la vida"@) == Some("Slice of Life"@),
        genre_named("slice of life"@) == Some("Slice of Life"@),
        genre_named("deportes"@) == Some("Sports"@),
        genre_named("sports"@) == Some("Sports"@),
        genre_named("supernatural"@) == Some("Supernatural"@),
        genre_named("thriller"@) == Some("Thriller"@),
{
    reveal_strlit("accion");
    reveal_strlit("action");
    reveal_strlit("aventura");
    reveal_strlit("adventure");
    reveal_strlit("comedia");
    reveal_strlit("comedy");
    reveal_strlit("drama");
    reveal_strlit("ecchi");
    reveal_strlit("fantasia");
    reveal_strlit("fantasy");
    reveal_strlit("hentai");
    reveal_strlit("terror");
    reveal_strlit("horror");
    reveal_strlit("mahou shoujo");
    reveal_strlit("mecha");
    reveal_strlit("musica");
    reveal_strlit("music");
    reveal_strlit("misterio");
    reveal_strlit("mystery");
    reveal_strlit("psicologico");
    reveal_strlit("psychological");
    reveal_strlit("romance");
    reveal_strlit("ciencia ficcion");
    reveal_strlit("sci-fi");
    reveal_strlit("scifi");
    reveal_strlit("recuentos de la vida");
    reveal_strlit("slice of life");
    reveal_strlit("deportes");
    reveal_strlit("sports");
    reveal_strlit("supernatural");
    reveal_strlit("thriller");
    assert("accion"@.len() == 6);
    assert("action"@.len() == 6);
    assert("aventura"@.len() == 8);
    assert("adventure"@.len() == 9);
    assert("comedia"@.len() == 7);
    assert("comedy"@.len() == 6);
    assert("drama"@.len() == 5);
    assert("ecchi"@.len() == 5);
    assert("fantasia"@.len() == 8);
    assert("fantasy"@.len() == 7);
    assert("hentai"@.len() == 6);
    assert("terror"@.len() == 6);
    assert("horror"@.len() == 6);
    assert("mahou shoujo"@.len() == 12);
    assert("mecha"@.len() == 5);
    assert("musica"@.len() == 6);
    assert("music"@.len() == 5);
    assert("misterio"@.len() == 8);
    assert("mystery"@.len() == 7);
    assert("psicologico"@.len() == 11);
    assert("psychological"@.len() == 13);
    assert("romance"@.len() == 7);
    assert("ciencia ficcion"@.len() == 15);
    assert("sci-fi"@.len() == 6);
    assert("scifi"@.len() == 5);
    assert("recuentos de la vida"@.len() == 20);
    assert("slice of life"@.len() == 13);
    assert("deportes"@.len() == 8);
    assert("sports"@.len() == 6);
    assert("supernatural"@.len() == 12);
    assert("thriller"@.len() == 8);
    assert("drama"@[0] != "ecchi"@[0]);
    assert("drama"@[0] != "mecha"@[0]);
    assert("drama"@[0] != "music"@[0]);
    assert("drama"@[0] != "scifi"@[0]);
    assert("ecchi"@[0] != "mecha"@[0]);
    assert("ecchi"@[0] != "music"@[0]);
    assert("ecchi"@[0] != "scifi"@[0]);
    assert("mecha"@[1] != "music"@[1]);
    assert("mecha"@[0] != "scifi"@[0]);
    assert("music"@[0] != "scifi"@[0]);
    assert("accion"@[2] != "action"@[2]);
    assert("accion"@[0] != "comedy"@[0]);
    assert("accion"@[0] != "hentai"@[0]);
    assert("accion"@[0] != "terror"@[0]);
    assert("accion"@[0] != "horror"@[0]);
    assert("accion"@[0] != "musica"@[0]);
    assert("accion"@[0] != "sci-fi"@[0]);
    assert("accion"@[0] != "sports"@[0]);
    assert("action"@[0] != "comedy"@[0]);
    assert("action"@[0] != "hentai"@[0]);
    assert("action"@[0] != "terror"@[0]);
    assert("action"@[0] != "horror"@[0]);
    assert("action"@[0] != "musica"@[0]);
    assert("action"@[0] != "sci-fi"@[0]);
    assert("action"@[0] != "sports"@[0]);
    assert("comedy"@[0] != "hentai"@[0]);
    assert("comedy"@[0] != "terror"@[0]);
    assert("comedy"@[0] != "horror"@[0]);
    assert("comedy"@[0] != "musica"@[0]);
    assert("comedy"@[0] != "sci-fi"@[0]);
    assert("comedy"@[0] != "sports"@[0]);
    assert("hentai"@[0] != "terror"@[0]);
    assert("hentai"@[1] != "horror"@[1]);
    assert("hentai"@[0] != "musica"@[0]);
    assert("hentai"@[0] != "sci-fi"@[0]);
    assert("hentai"@[0] != "sports"@[0]);
    assert("terror"@[0] != "horror"@[0]);
    assert("terror"@[0] != "musica"@[0]);
    assert("terror"@[0] != "sci-fi"@[0]);
    assert("terror"@[0] != "sports"@[0]);
    assert("horror"@[0] != "musica"@[0]);
    assert("horror"@[0] != "sci-fi"@[0]);
    assert("horror"@[0] != "sports"@[0]);
    assert("musica"@[0] != "sci-fi"@[0]);
    assert("musica"@[0] != "sports"@[0]);
    assert("sci-fi"@[1] != "sports"@[1]);
    assert("comedia"@[0] != "fantasy"@[0]);
    assert("comedia"@[0] != "mystery"@[0]);
    assert("comedia"@[0] != "romance"@[0]);
    assert("fantasy"@[0] != "mystery"@[0]);
    assert("fantasy"@[0] != "romance"@[0]);
    assert("mystery"@[0] != "romance"@[0]);
    assert("aventura"@[0] != "fantasia"@[0]);
    assert("aventura"@[0] != "misterio"@[0]);
    assert("aventura"@[0] != "deportes"@[0]);
    assert("aventura"@[0] != "thriller"@[0]);
    assert("fantasia"@[0] != "misterio"@[0]);
    assert("fantasia"@[0] != "deportes"@[0]);
    assert("fantasia"@[0] != "thriller"@[0]);
    assert("misterio"@[0] != "deportes"@[0]);
    assert("misterio"@[0] != "thriller"@[0]);
    assert("deportes"@[0] != "thriller"@[0]);
    assert("mahou shoujo"@[0] != "supernatural"@[0]);
    assert("psychological"@[0] != "slice of life"@[0]);
}

proof fn lemma_genres_apart()
    ensures
        names_of_genre("Action"@) == seq!["accion"@, "action"@],
        names_of_genre("Adventure"@) == seq!["aventura"@, "adventure"@],
        names_of_genre("Comedy"@) == seq!["comedia"@, "comedy"@],
        names_of_genre("Drama"@) == seq!["drama"@],
        names_of_genre("Ecchi"@) == seq!["ecchi"@],
        names_of_genre("Fantasy"@) == seq!["fantasia"@, "fantasy"@],
        names_of_genre("Hentai"@) == seq!["hentai"@],
        names_of_genre("Horror"@) == seq!["terror"@, "horror"@],
        names_of_genre("Mahou Shoujo"@) == seq!["mahou shoujo"@],
        names_of_genre("Mecha"@) == seq!["mecha"@],
        names_of_genre("Music"@) == seq!["musica"@, "music"@],
        names_of_genre("Mystery"@) == seq!["misterio"@, "mystery"@],
        names_of_genre("Psychological"@) == seq!["psicologico"@, "psychological"@],
        names_of_genre("Romance"@) == seq!["romance"@],
        names_of_genre("Sci-Fi"@) == seq!["ciencia ficcion"@, "sci-fi"@, "scifi"@],
        names_of_genre("Slice of Life"@) == seq!["recuentos de la vida"@, "slice of life"@],
        names_of_genre("Sports"@) == seq!["deportes"@, "sports"@],
        names_of_genre("Supernatural"@) == seq!["supernatural"@],
        names_of_genre("Thriller"@) == seq!["thriller"@],
{
    reveal_strlit("Action");
    reveal_strlit("Adventure");
    reveal_strlit("Comedy");
    reveal_strlit("Drama");
    reveal_strlit("Ecchi");
    reveal_strlit("Fantasy");
    reveal_strlit("Hentai");
    reveal_strlit("Horror");
    reveal_strlit("Mahou Shoujo");
    reveal_strlit("Mecha");
    reveal_strlit("Music");
    reveal_strlit("Mystery");
    reveal_strlit("Psychological");
    reveal_strlit("Romance");
    reveal_strlit("Sci-Fi");
    reveal_strlit("Slice of Life");
    reveal_strlit("Sports");
    reveal_strlit("Supernatural");
    reveal_strlit("Thriller");
    assert("Action"@.len() == 6);
    assert("Adventure"@.len() == 9);
    assert("Comedy"@.len() == 6);
    assert("Drama"@.len() == 5);
    assert("Ecchi"@.len() == 5);
    assert("Fantasy"@.len() == 7);
    assert("Hentai"@.len() == 6);
    assert("Horror"@.len() == 6);
    assert("Mahou Shoujo"@.len() == 12);
    assert("Mecha"@.len() == 5);
    assert("Music"@.len() == 5);
    assert("Mystery"@.len() == 7);
    assert("Psychological"@.len() == 13);
    assert("Romance"@.len() == 7);
    assert("Sci-Fi"@.len() == 6);
    assert("Slice of Life"@.len() == 13);
    assert("Sports"@.len() == 6);
    assert("Supernatural"@.len() == 12);
    assert("Thriller"@.len() == 8);
    assert("Drama"@[0] != "Ecchi"@[0]);
    assert("Drama"@[0] != "Mecha"@[0]);
    assert("Drama"@[0] != "Music"@[0]);
    assert("Ecchi"@[0] != "Mecha"@[0]);
    assert("Ecchi"@[0] != "Music"@[0]);
    assert("Mecha"@[1] != "Music"@[1]);
    assert("Action"@[0] != "Comedy"@[0]);
    assert("Action"@[0] != "Hentai"@[0]);
    assert("Action"@[0] != "Horror"@[0]);
    assert("Action"@[0] != "Sci-Fi"@[0]);
    assert("Action"@[0] != "Sports"@[0]);
    assert("Comedy"@[0] != "Hentai"@[0]);
    assert("Comedy"@[0] != "Horror"@[0]);
    assert("Comedy"@[0] != "Sci-Fi"@[0]);
    assert("Comedy"@[0] != "Sports"@[0]);
    assert("Hentai"@[1] != "Horror"@[1]);
    assert("Hentai"@[0] != "Sci-Fi"@[0]);
    assert("Hentai"@[0] != "Sports"@[0]);
    assert("Horror"@[0] != "Sci-Fi"@[0]);
    assert("Horror"@[0] != "Sports"@[0]);
    assert("Sci-Fi"@[1] != "Sports"@[1]);
    assert("Fantasy"@[0] != "Mystery"@[0]);
    assert("Fantasy"@[0] != "Romance"@[0]);
    assert("Mystery"@[0] != "Romance"@[0]);
    assert("Mahou Shoujo"@[0] != "Supernatural"@[0]);
    assert("Psychological"@[0] != "Slice of Life"@[0]);
}

/// A tag names a genre of the catalog exactly where it is one of the genre's
/// names; nothing else names a genre.
pub proof fn law_genres_are_named(genre: Seq<char>, name: Seq<char>)
    ensures
        catalog_genre(genre) ==> (genre_named(name) == Some(genre) <==> names_of_genre(
            genre,
        ).contains(name)),
        genre_named(name) matches Some(g) ==> catalog_genre(g) && names_of_genre(g).contains(name),
{
    lemma_genre_names();
    lemma_genres_apart();
    if catalog_genre(genre) && names_of_genre(genre).contains(name) {
        let i = choose|i: int| 0 <= i < names_of_genre(genre).len() && names_of_genre(genre)[i] == name;
        assert(i == 0 || i == 1 || i == 2);
    }
    if genre_named(name) is Some {
        let g = genre_named(name)->0;
        let n = names_of_genre(g);
        assert(g == "Action"@ ==> n[0] == "accion"@ && n[1] == "action"@);
        assert(g == "Adventure"@ ==> n[0] == "aventura"@ && n[1] == "adventure"@);
        assert(g == "Comedy"@ ==> n[0] == "comedia"@ && n[1] == "comedy"@);
        assert(g == "Drama"@ ==> n[0] == "drama"@);
        assert(g == "Ecchi"@ ==> n[0] == "ecchi"@);
        assert(g == "Fantasy"@ ==> n[0] == "fantasia"@ && n[1] == "fantasy"@);
        assert(g == "Hentai"@ ==> n[0] == "hentai"@);
        assert(g == "Horror"@ ==> n[0] == "terror"@ && n[1] == "horror"@);
        assert(g == "Mahou Shoujo"@ ==> n[0] == "mahou shoujo"@);
        assert(g == "Mecha"@ ==> n[0] == "mecha"@);
        assert(g == "Music"@ ==> n[0] == "musica"@ && n[1] == "music"@);
        assert(g == "Mystery"@ ==> n[0] == "misterio"@ && n[1] == "mystery"@);
        assert(g == "Psychological"@ ==> n[0] == "psicologico"@ && n[1] == "psychological"@);
        assert(g == "Romance"@ ==> n[0] == "romance"@);
        assert(g == "Sci-Fi"@ ==> n[0] == "ciencia ficcion"@ && n[1] == "sci-fi"@ && n[2] == "scifi"@);
        assert(g == "Slice of Life"@ ==> n[0] == "recuentos de la vida"@ && n[1] == "slice of life"@);
        assert(g == "Sports"@ ==> n[0] == "deportes"@ && n[1] == "sports"@);
        assert(g == "Supernatural"@ ==> n[0] == "supernatural"@);
        assert(g == "Thriller"@ ==> n[0] == "thriller"@);
    }
}

/// The names in two languages are names of one genre: the tags of a site in
/// Spanish and of the catalog in English agree.
pub proof fn law_languages_agree(genre: Seq<char>, i: int, j: int)
    requires
        catalog_genre(genre),
        0 <= i < names_of_genre(genre).len(),
        0 <= j < names_of_genre(genre).len(),
    ensures
        genre_named(names_of_genre(genre)[i]) == Some(genre),
        genre_named(names_of_genre(genre)[j]) == genre_named(names_of_genre(genre)[i]),
{
    law_genres_are_named(genre, names_of_genre(genre)[i]);
    law_genres_are_named(genre, names_of_genre(genre)[j]);
}

/// A tag without capitals, accents or white space around it is read as it stands.
pub proof fn law_plain_tag_is_read(tag: Seq<char>)
    requires
        forall|i: int| 0 <= i < tag.len() ==> (#[trigger] tag[i] == ' ' || plain_char(tag[i])),
        tag.len() > 0 ==> tag[0] != ' ' && tag.last() != ' ',
    ensures
        canonical(tag) == genre_named(tag),
{
    assert(trimmed(tag) == tag) by {
        if tag.len() > 0 {
            assert(plain_char(tag[0]));
            assert(plain_char(tag[tag.len() - 1]));
            assert(!white_space(tag[0]));
            assert(!white_space(tag.last()));
        }
    }
    assert forall|i: int| 0 <= i < tag.len() implies unaccented(#[trigger] tag[i]) == tag[i]
        && ascii_lower(tag[i]) == tag[i] && tag[i] < '\u{80}' by {
        assert(tag[i] == ' ' || plain_char(tag[i]));
    }
    assert(without_accents(tag) =~= tag);
    assert(ascii_text(tag));
    assert(folded(tag) =~= tag);
}

/// How long an episode of each format is taken to be, in minutes.
pub open spec fn minutes_of(name: Seq<char>) -> int {
    if seq!["MOVIE"@, "PELICULA"@, "PELÍCULA"@].contains(name) {
        100
    } else if name == "MUSIC"@ {
        5
    } else if name == "TV_SHORT"@ {
        8
    } else if seq!["OVA"@, "SPECIAL"@].contains(name) {
        26
    } else {
        24
    }
}

/// A film is longer than a special, a special than an ordinary episode, that than
/// a short one, and a song is the shortest; what is not known is an ordinary
/// episode. Case and white space around the format do not count.
pub proof fn law_formats_have_lengths(format: Seq<char>, other: Seq<char>)
    ensures
        format_minutes(Some(format)) == minutes_of(uppercase(trimmed(format))),
        uppercase(trimmed(format)) == uppercase(trimmed(other)) ==> format_minutes(Some(format))
            == format_minutes(Some(other)),
        format_minutes(None) == 24,
        5 <= format_minutes(Some(format)) <= 100,
{
    let name = uppercase(trimmed(format));
    reveal_strlit("MOVIE");
    reveal_strlit("PELICULA");
    reveal_strlit("PELÍCULA");
    reveal_strlit("MUSIC");
    reveal_strlit("TV_SHORT");
    reveal_strlit("OVA");
    reveal_strlit("SPECIAL");
    let films = seq!["MOVIE"@, "PELICULA"@, "PELÍCULA"@];
    let specials = seq!["OVA"@, "SPECIAL"@];
    assert(films[0] == "MOVIE"@ && films[1] == "PELICULA"@ && films[2] == "PELÍCULA"@);
    assert(specials[0] == "OVA"@ && specials[1] == "SPECIAL"@);
    assert("MOVIE"@[1] != "MUSIC"@[1]);
    assert("PELICULA"@[0] != "TV_SHORT"@[0]);
    assert("PELÍCULA"@[0] != "TV_SHORT"@[0]);
    if films.contains(name) {
        let i = choose|i: int| 0 <= i < films.len() && films[i] == name;
        assert(i == 0 || i == 1 || i == 2);
    }
    if specials.contains(name) {
        let i = choose|i: int| 0 <= i < specials.len() && specials[i] == name;
        assert(i == 0 || i == 1);
    }
}

/// The words of a part, and a name of a season with a number, are no part of a
/// franchise's key; a year is.
pub proof fn law_part_is_stripped(w: Seq<Seq<char>>, t: Seq<char>, digits: Seq<char>)
    ensures
        season_name(t) || season_numeral(t) ==> without_part(w.push(t), false) == without_part(
            w,
            false,
        ),
        forall|d: Seq<char>, e: Seq<char>|
            ascii_int(d) && ordinal_ending(e) && t == #[trigger] (d + e) ==> without_part(
                w.push(t),
                false,
            ) == without_part(w, false),
        season_name(t) && ascii_int(digits) ==> without_part(w.push(t).push(digits), false)
            == without_part(w, false),
        !season_name(t) && !season_numeral(t) && !ordinal(t) && !(ascii_int(t) && w.len() > 0
            && season_name(w.last())) ==> without_part(w.push(t), false) == w.push(t),
{
    crate::laws::seasons::law_season_words(t);
    assert(w.push(t).drop_last() =~= w);
    assert forall|d: Seq<char>, e: Seq<char>|
        ascii_int(d) && ordinal_ending(e) && t == #[trigger] (d + e) implies without_part(
        w.push(t),
        false,
    ) == without_part(w, false) by {
        crate::laws::seasons::law_ordinals_end_in(d, e, t);
    }
    if w.len() > 0 {
        crate::laws::seasons::law_season_words(w.last());
    }
    if season_name(t) && ascii_int(digits) {
        let v = w.push(t).push(digits);
        crate::laws::seasons::law_season_words(digits);
        assert(v.take(v.len() - 2) =~= w);
        assert(v.drop_last() =~= w.push(t));
        assert(v[v.len() - 2] == t);
        if part_word(digits) {
            assert(without_part(v, false) == without_part(w.push(t), false));
        }
    }
}

/// A title of plain words belongs to the franchise of its words without the part.
pub proof fn law_franchise_of_plain_title(w: Seq<Seq<char>>)
    requires
        plain_words(w),
        w.len() > 0 ==> w.last() != "latino"@ && w.last() != "castellano"@ && w.last() != "hd"@
            && w.last() != "online"@,
        w.len() > 1 ==> !(w[w.len() - 2] == "sub"@ && w.last() == "espanol"@),
        without_part(w, false).len() > 0,
    ensures
        franchise(join(w)) == join(without_part(w, false)),
{
    crate::laws::titles::law_plain_title_is_kept(w);
    assert forall|i: int, j: int|
        0 <= i < w.len() && 0 <= j < w[i].len() implies WordKind::Visible.holds(
        #[trigger] w[i][j],
    ) by {
        assert(plain_char(w[i][j]));
    }
    law_split_undoes_join(w, WordKind::Visible);
    lemma_part_is_prefix(w);
    let v = without_part(w, false);
    let n = v.len() as int;
    assert(v[n - 1] == w[n - 1]);
    assert(w[n - 1].len() > 0);
    crate::text::lemma_join_nonempty(v);
}

proof fn lemma_part_is_prefix(w: Seq<Seq<char>>)
    ensures
        without_part(w, false).len() <= w.len(),
        without_part(w, false) == w.take(without_part(w, false).len() as int),
    decreases w.len(),
{
    if w.len() > 0 && part_word(w.last()) {
        let v = w.drop_last();
        lemma_part_is_prefix(v);
        assert(v.take(without_part(v, false).len() as int) =~= w.take(
            without_part(v, false).len() as int,
        ));
    } else if w.len() >= 2 && ascii_int(w.last()) && season_marker(w[w.len() - 2]) {
        let v = w.take(w.len() - 2);
        lemma_part_is_prefix(v);
        assert(v.take(without_part(v, false).len() as int) =~= w.take(
            without_part(v, false).len() as int,
        ));
    } else {
        assert(w.take(w.len() as int) =~= w);
    }
}

/// A title is qualified by what follows its first colon, where something stands
/// before it; the franchise of what stands before is its parent.
pub proof fn law_parent_stands_before_the_colon(a: Seq<char>, b: Seq<char>, plain: Seq<char>)
    requires
        forall|i: int| 0 <= i < a.len() ==> #[trigger] a[i] != ':',
        forall|i: int| 0 <= i < plain.len() ==> #[trigger] plain[i] != ':',
    ensures
        ({
            let title = a.push(':') + b;
            &&& trimmed(a).len() > 0 ==> (parent_franchise(title) matches Some(p) ==> p == franchise(
                a,
            )) && (parent_franchise(title) is None <==> franchise(a) == franchise(title))
            &&& trimmed(a).len() > 0 ==> base_title(title) == display_title(a)
            &&& trimmed(a).len() == 0 ==> parent_franchise(title) is None
            &&& trimmed(a).len() == 0 ==> base_title(title) == display_title(title)
        }),
        parent_franchise(plain) is None,
        base_title(plain) == display_title(plain),
{
    let title = a.push(':') + b;
    lemma_colon(title, a.len() as int);
    assert(title.take(a.len() as int) =~= a);
    lemma_no_colon(plain);
}

proof fn lemma_colon(s: Seq<char>, n: int)
    requires
        0 <= n < s.len(),
        s[n] == ':',
        forall|i: int| 0 <= i < n ==> #[trigger] s[i] != ':',
    ensures
        colon(s) == n,
    decreases n,
{
    if n > 0 {
        let t = s.drop_first();
        assert forall|i: int| 0 <= i < n - 1 implies #[trigger] t[i] != ':' by {
            assert(t[i] == s[i + 1]);
        }
        assert(s[0] != ':');
        lemma_colon(t, n - 1);
    }
}

proof fn lemma_no_colon(s: Seq<char>)
    requires
        forall|i: int| 0 <= i < s.len() ==> #[trigger] s[i] != ':',
    ensures
        colon(s) == s.len(),
    decreases s.len(),
{
    if s.len() > 0 {
        let t = s.drop_first();
        assert forall|i: int| 0 <= i < t.len() implies #[trigger] t[i] != ':' by {
            assert(t[i] == s[i + 1]);
        }
        assert(s[0] != ':');
        lemma_no_colon(t);
    }
}

/// Of two titles the shorter is shown; of two of one length the one that is not
/// all in capitals; then the one that is first in order.
pub proof fn law_title_shown(a: Seq<char>, b: Seq<char>)
    ensures
        a.len() < b.len() ==> shown_rather(a, b) && !shown_rather(b, a),
        a.len() == b.len() && !shouted(a) && shouted(b) ==> shown_rather(a, b) && !shown_rather(
            b,
            a,
        ),
        a.len() == b.len() && shouted(a) == shouted(b) && precedes(a, b) ==> shown_rather(a, b)
            && !shown_rather(b, a),
{
    crate::text::lemma_precedes_total(a, b);
}

/// The title shown for a title of plain words: its words without the part at their
/// end, or all of them where nothing else is left.
pub proof fn law_shown_title_of_plain_words(w: Seq<Seq<char>>)
    requires
        plain_words(w),
    ensures
        without_part(w, false).len() > 0 ==> display_title(join(w)) == join(without_part(w, false)),
        without_part(w, false).len() == 0 ==> display_title(join(w)) == join(w),
{
    assert forall|i: int, j: int|
        0 <= i < w.len() && 0 <= j < w[i].len() implies WordKind::Visible.holds(
        #[trigger] w[i][j],
    ) by {
        assert(plain_char(w[i][j]));
    }
    law_split_undoes_join(w, WordKind::Visible);
    lemma_plain_words_part(w);
    lemma_part_is_prefix(w);
    let v = without_part(w, false);
    let n = v.len() as int;
    if n > 0 {
        assert(v[0] == w[0] && v[n - 1] == w[n - 1]);
        assert forall|i: int| 0 <= i < v.len() implies #[trigger] v[i] == w[i] by {}
        lemma_plain_ends(v);
    }
    if w.len() > 0 {
        lemma_plain_ends(w);
    } else {
        assert(join(w) =~= Seq::empty());
        assert(trimmed(join(w)) =~= Seq::empty());
    }
}

proof fn lemma_plain_ends(w: Seq<Seq<char>>)
    requires
        w.len() > 0,
        forall|i: int| 0 <= i < w.len() ==> #[trigger] w[i].len() > 0,
        forall|i: int, j: int|
            0 <= i < w.len() && 0 <= j < w[i].len() ==> plain_char(#[trigger] w[i][j]),
    ensures
        join(w).len() > 0,
        trimmed(join(w)) == join(w),
{
    let s = join(w);
    lemma_join_ends(w);
    assert(plain_char(s[0]) && plain_char(s.last()));
    assert(!white_space(s[0]) && !white_space(s.last()));
}

proof fn lemma_join_ends(w: Seq<Seq<char>>)
    requires
        w.len() > 0,
        forall|i: int| 0 <= i < w.len() ==> #[trigger] w[i].len() > 0,
        forall|i: int, j: int|
            0 <= i < w.len() && 0 <= j < w[i].len() ==> plain_char(#[trigger] w[i][j]),
    ensures
        join(w).len() > 0,
        plain_char(join(w)[0]),
        plain_char(join(w).last()),
    decreases w.len(),
{
    let n = w.len() - 1;
    assert(w[n].len() > 0);
    assert(plain_char(w[n][w[n].len() - 1]));
    if w.len() == 1 {
        assert(plain_char(w[0][0]));
    } else {
        let init = w.drop_last();
        assert forall|i: int| 0 <= i < init.len() implies #[trigger] init[i].len() > 0 by {
            assert(init[i] == w[i]);
        }
        assert forall|i: int, j: int| 0 <= i < init.len() && 0 <= j < init[i].len() implies plain_char(
            #[trigger] init[i][j],
        ) by {
            assert(plain_char(w[i][j]));
        }
        lemma_join_ends(init);
        assert(join(w)[0] == join(init)[0]);
        assert(join(w).last() == w[n][w[n].len() - 1]);
    }
}

proof fn lemma_plain_word_is_kept(t: Seq<char>)
    requires
        t.len() > 0,
        forall|j: int| 0 <= j < t.len() ==> plain_char(#[trigger] t[j]),
    ensures
        normalized(t) == t || (normalized(t).len() == 0 && (t == "latino"@ || t == "castellano"@ || t
            == "hd"@ || t == "online"@)),
{
    let w = seq![t];
    assert(join(w) == t);
    assert forall|i: int, j: int| 0 <= i < w.len() && 0 <= j < w[i].len() implies plain_char(
        #[trigger] w[i][j],
    ) by {
        assert(plain_char(t[j]));
    }
    assert(w.last() == t);
    if t == "latino"@ || t == "castellano"@ || t == "hd"@ || t == "online"@ {
        crate::laws::titles::lemma_plain_text(w);
        assert(w.drop_last() =~= Seq::empty());
        assert(title_words(t) == crate::matching::without_noise(w));
        assert(crate::matching::without_noise(Seq::<Seq<char>>::empty()) =~= Seq::empty());
        assert(normalized(t) =~= Seq::empty());
    } else {
        crate::laws::titles::law_plain_title_is_kept(w);
    }
}

proof fn lemma_plain_words_part(w: Seq<Seq<char>>)
    requires
        plain_words(w),
    ensures
        without_part(w, true) == without_part(w, false),
    decreases w.len(),
{
    reveal_strlit("latino");
    reveal_strlit("castellano");
    reveal_strlit("hd");
    reveal_strlit("online");
    if w.len() > 0 {
        let n = w.len() - 1;
        let t = w[n];
        assert(t.len() > 0);
        assert forall|j: int| 0 <= j < t.len() implies plain_char(#[trigger] t[j]) by {
            assert(plain_char(w[n][j]));
        }
        lemma_plain_word_is_kept(t);
        lemma_noise_is_no_part(t);
        lemma_noise_is_no_part(normalized(t));
        let init = w.drop_last();
        assert forall|i: int| 0 <= i < init.len() implies #[trigger] init[i].len() > 0 by {
            assert(init[i] == w[i]);
        }
        assert forall|i: int, j: int| 0 <= i < init.len() && 0 <= j < init[i].len() implies plain_char(
            #[trigger] init[i][j],
        ) by {
            assert(plain_char(w[i][j]));
        }
        lemma_plain_words_part(init);
        if w.len() >= 2 {
            let u = w[n - 1];
            assert(u.len() > 0);
            assert forall|j: int| 0 <= j < u.len() implies plain_char(#[trigger] u[j]) by {
                assert(plain_char(w[n - 1][j]));
            }
            lemma_plain_word_is_kept(u);
            lemma_noise_is_no_part(u);
            lemma_noise_is_no_part(normalized(u));
            let short = w.take(w.len() - 2);
            assert forall|i: int| 0 <= i < short.len() implies #[trigger] short[i].len() > 0 by {
                assert(short[i] == w[i]);
            }
            assert forall|i: int, j: int|
                0 <= i < short.len() && 0 <= j < short[i].len() implies plain_char(
                #[trigger] short[i][j],
            ) by {
                assert(plain_char(w[i][j]));
            }
            lemma_plain_words_part(short);
        }
    }
}

proof fn lemma_noise_is_no_part(t: Seq<char>)
    ensures
        t == "latino"@ || t == "castellano"@ || t == "hd"@ || t == "online"@ ==> !part_word(t)
            && !ascii_int(t) && !season_marker(t),
        t.len() == 0 ==> !part_word(t) && !ascii_int(t) && !season_marker(t),
{
    reveal_strlit("latino");
    reveal_strlit("castellano");
    reveal_strlit("hd");
    reveal_strlit("online");
    assert("latino"@.len() == 6 && "castellano"@.len() == 10 && "hd"@.len() == 2 && "online"@.len()
        == 6);
    reveal_strlit("season");
    reveal_strlit("temporada");
    reveal_strlit("part");
    reveal_strlit("parte");
    reveal_strlit("cour");
    reveal_strlit("final");
    reveal_strlit("the");
    assert("season"@.len() == 6 && "temporada"@.len() == 9 && "part"@.len() == 4 && "parte"@.len()
        == 5 && "cour"@.len() == 4 && "final"@.len() == 5 && "the"@.len() == 3);
    assert("latino"@[0] != "season"@[0] && "online"@[0] != "season"@[0]);
    reveal_strlit("ii");
    reveal_strlit("iii");
    reveal_strlit("iv");
    reveal_strlit("v");
    reveal_strlit("vi");
    reveal_strlit("vii");
    reveal_strlit("viii");
    reveal_strlit("ix");
    reveal_strlit("x");
    assert("ii"@.len() == 2 && "iii"@.len() == 3 && "iv"@.len() == 2 && "v"@.len() == 1
        && "vi"@.len() == 2 && "vii"@.len() == 3 && "viii"@.len() == 4 && "ix"@.len() == 2
        && "x"@.len() == 1);
    assert("hd"@[0] != "ii"@[0] && "hd"@[0] != "iv"@[0] && "hd"@[0] != "vi"@[0] && "hd"@[0]
        != "ix"@[0]);
    if t == "latino"@ || t == "castellano"@ || t == "hd"@ || t == "online"@ {
        assert(!crate::text::ascii_digit(t[0]));
        if ordinal(t) {
            let head = t.take(t.len() - 2);
            assert(head[0] == t[0]);
            assert(crate::text::ascii_digit(head[0]));
        }
    }
}

/// A title is all in capitals where it has one and no small letter.
pub proof fn law_shouting(s: Seq<char>, i: int)
    requires
        0 <= i < s.len(),
    ensures
        lower_case(s[i]) ==> !shouted(s),
        upper_case(s[i]) && (forall|j: int| 0 <= j < s.len() ==> !lower_case(#[trigger] s[j]))
            ==> shouted(s),
        (forall|j: int| 0 <= j < s.len() ==> !upper_case(#[trigger] s[j])) ==> !shouted(s),
{
}

/// A title that is nothing but a part is its own franchise; so is one that is nothing
/// once normalized, without the white space around it. A blank one is a question
/// mark.
pub proof fn law_franchise_of_other_titles(w: Seq<Seq<char>>, title: Seq<char>)
    ensures
        plain_words(w) && w.len() > 0 && w.last() != "latino"@ && w.last() != "castellano"@
            && w.last() != "hd"@ && w.last() != "online"@ && (w.len() > 1 ==> !(w[w.len() - 2]
            == "sub"@ && w.last() == "espanol"@)) && without_part(w, false).len() == 0
            ==> franchise(join(w)) == join(w),
        without_part(title_words(title), false).len() == 0 && normalized(title).len() > 0
            ==> franchise(title) == normalized(title),
        normalized(title).len() == 0 && trimmed(title).len() > 0 ==> franchise(title) == trimmed(
            title,
        ),
        normalized(title).len() == 0 && trimmed(title).len() == 0 ==> franchise(title)
            == seq!['?'],
{
    if plain_words(w) && w.len() > 0 && w.last() != "latino"@ && w.last() != "castellano"@
        && w.last() != "hd"@ && w.last() != "online"@ && (w.len() > 1 ==> !(w[w.len() - 2]
        == "sub"@ && w.last() == "espanol"@)) && without_part(w, false).len() == 0 {
        crate::laws::titles::law_plain_title_is_kept(w);
        assert forall|i: int, j: int|
            0 <= i < w.len() && 0 <= j < w[i].len() implies WordKind::Visible.holds(
            #[trigger] w[i][j],
        ) by {
            assert(plain_char(w[i][j]));
        }
        law_split_undoes_join(w, WordKind::Visible);
        lemma_plain_ends(w);
        assert(join(without_part(w, false)) =~= Seq::empty());
    }
    crate::matching::law_normalized_shape(title);
    if without_part(title_words(title), false).len() == 0 {
        assert(join(without_part(title_words(title), false)) =~= Seq::empty());
    }
    if normalized(title).len() == 0 {
        let none = Seq::<Seq<char>>::empty();
        assert(words(normalized(title), WordKind::Visible) =~= none);
        assert(without_part(none, false) =~= none);
        assert(join(none) =~= Seq::empty());
    }
}

} // verus!
