# AnimeOnTrack

The verified core of an anime tracker, and the desktop program around it.

The tracker follows series on several streaming sites, keeps the place in each of them, and
offers new ones from a local copy of a catalog. A show that is on several sites is one show.

## Layout

- `src/` is the library. Everything in it is proved with [Verus](https://github.com/verus-lang/verus).
  - `db/` holds the tables as lists of rows, and every query and change as a method of `Db` with a
    contract over those rows: sites and series, episodes and what was seen of them, the library
    over all sites, the pending queue, the catalog with its filters and pages, cards to discover,
    settings, and statistics over franchises, genres and days.
  - `matching`, `edits`, `genres`, `catalog_index` tell which titles name the same work.
  - `recommend` and `swipe` score and draw cards.
  - `scraper_engine` decides which addresses are loaded, when a page is read and when to give up.
  - `html_cache`, `diff`, `calendar`, `startup` are what their names say.
  - `text`, `text_set`, `rows`, `listing`, `natural` are shared by the others.
- `tests/` runs the library from outside.
- `app/` is the program: windows, the SQLite file, clocks and the user interface's commands.

## What is proved

Contracts say what a function returns for every input that it accepts. Beyond them, functions named
`law_..` state what holds between calls: watching stays free of gaps and is undone by its opposite,
the library does not depend on the active site, the episodes marked and those credited beyond them
add up to the larger of the two counts of each franchise (where every marked episode is one of a
known series, and no arc hangs off its show by more steps than are followed), a card that was decided on is never
offered again, pages of the catalog cover it, a title does not match one that extends it by a word
that tells two works apart, and the edit distance is the least number of edits.

Every change keeps well-formed tables well-formed. `Db::check` tells whether tables that were read
from a file are.

Numbers that would be fractions are whole numbers of a small unit: match scores, episode numbers,
affinities and taste scores. Episode numbers and taste scores keep more places than a double has, and
are as large as they need to be. Where an episode number is infinite as a double, or no number, it
counts as that.

What is left to chance draws on one generator, which the program seeds once and hands to every pick.
No number comes again before all others have come.

## What is not proved

A few functions call other crates or the standard library: `url` for addresses, `serde_json` for a
page's answers, `chrono` for calendar days, `getrandom` and the system clock for seeds, and the
Unicode tables of `char` and `str`. Each says in its comment what is taken on trust. `app/` is
ordinary Rust.
