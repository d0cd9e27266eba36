//! Settings.

use vstd::prelude::*;
use crate::db::{only_settings, Db, DbError, SettingRow};
use crate::rows::{
    first_where, lemma_filter_none, lemma_filter_pairwise, lemma_filter_step, lemma_first_where_at,
    lemma_first_where_none, updated,
};
use crate::text::{append_chars, chars_of, same_text, text_of, trim_chars, trimmed};

verus! {

/// The condition of having a key.
pub open spec fn keyed(key: Seq<char>) -> spec_fn(SettingRow) -> bool {
    |s: SettingRow| s.key@ == key
}

/// The value of a setting.
pub open spec fn setting(settings: Seq<SettingRow>, key: Seq<char>) -> Option<String> {
    match first_where(settings, keyed(key)) {
        Some(s) => Some(s.value),
        None => None,
    }
}

/// Whether the second table is the first with a setting made.
pub open spec fn setting_made(
    before: Seq<SettingRow>,
    after: Seq<SettingRow>,
    key: Seq<char>,
    value: Seq<char>,
) -> bool {
    if setting(before, key) is Some {
        updated(
            before,
            after,
            keyed(key),
            |a: SettingRow, b: SettingRow|
                b == (SettingRow { value: b.value, ..a }) && b.value@ == value,
        )
    } else {
        &&& after.len() == before.len() + 1
        &&& after.drop_last() == before
        &&& after.last().key@ == key
        &&& after.last().value@ == value
    }
}

/// The list that is stored under a key; without a setting it is empty.
pub open spec fn listed_under(settings: Seq<SettingRow>, key: Seq<char>) -> Seq<Seq<char>> {
    match setting(settings, key) {
        Some(v) => stored_items(v@),
        None => Seq::empty(),
    }
}

/// Whether the deck leaves out titles that have not come out yet.
pub open spec fn hides_upcoming(settings: Seq<SettingRow>) -> bool {
    setting(settings, "hide_upcoming_releases"@) matches Some(v) && v@ == "true"@
}

/// How a yes or a no is stored.
pub open spec fn flag_text(flag: bool) -> Seq<char> {
    if flag { "true"@ } else { "false"@ }
}

/// The condition of having another key.
pub open spec fn other_key(key: Seq<char>) -> spec_fn(SettingRow) -> bool {
    |s: SettingRow| s.key@ != key
}

/// What was just set is what is read.
pub proof fn law_setting_read_back(
    before: Seq<SettingRow>,
    after: Seq<SettingRow>,
    key: Seq<char>,
    value: Seq<char>,
)
    requires
        setting_made(before, after, key, value),
    ensures
        setting(after, key) matches Some(v) && v@ == value,
{
    lemma_first_where_none(before, keyed(key));
    lemma_first_where_none(after, keyed(key));
    if setting(before, key) is Some {
        let k = choose|k: int| 0 <= k < before.len() && keyed(key)(#[trigger] before[k]);
        assert(keyed(key)(after[k]));
    } else {
        assert(keyed(key)(after[after.len() - 1]));
    }
    lemma_first_where_hit(after, keyed(key));
    let s = first_where(after, keyed(key))->0;
    let k = choose|k: int| 0 <= k < after.len() && #[trigger] after[k] == s;
    if setting(before, key) is Some {
        assert(keyed(key)(before[k]));
    } else if k < before.len() {
        assert(after.drop_last()[k] == before[k]);
        assert(!keyed(key)(before[k]));
    }
}

/// The first row that satisfies a condition is a row and satisfies it.
proof fn lemma_first_where_hit<T>(rows: Seq<T>, hit: spec_fn(T) -> bool)
    ensures
        first_where(rows, hit) matches Some(r) ==> hit(r) && exists|k: int|
            0 <= k < rows.len() && #[trigger] rows[k] == r,
    decreases rows.len(),
{
    if rows.len() > 0 {
        if hit(rows[0]) {
        } else {
            lemma_first_where_hit(rows.drop_first(), hit);
            if let Some(r) = first_where(rows.drop_first(), hit) {
                let k = choose|k: int|
                    0 <= k < rows.drop_first().len() && #[trigger] rows.drop_first()[k] == r;
                assert(rows[k + 1] == r);
            }
        }
    }
}

/// The lines of a text.
pub open spec fn lines(s: Seq<char>) -> Seq<Seq<char>>
    decreases s.len(),
{
    if s.len() == 0 {
        seq![Seq::empty()]
    } else {
        let before = lines(s.drop_last());
        if s.last() == '\n' {
            before.push(Seq::empty())
        } else {
            before.drop_last().push(before.last().push(s.last()))
        }
    }
}

/// The items of a stored list: its lines without surrounding white space, empty
/// ones left out.
pub open spec fn stored_items(s: Seq<char>) -> Seq<Seq<char>> {
    lines(s).map_values(|l: Seq<char>| trimmed(l)).filter(|l: Seq<char>| l.len() > 0)
}

/// A list as it is stored: its items on lines of their own.
pub open spec fn stored_list(items: Seq<Seq<char>>) -> Seq<char>
    decreases items.len(),
{
    if items.len() == 0 {
        Seq::empty()
    } else if items.len() == 1 {
        items[0]
    } else {
        stored_list(items.drop_last()).push('\n') + items.last()
    }
}

/// Whether an item survives being stored in a list: it is not empty, spans one
/// line and has no white space around it.
pub open spec fn plain_item(s: Seq<char>) -> bool {
    &&& s.len() > 0
    &&& trimmed(s) == s
    &&& forall|i: int| 0 <= i < s.len() ==> #[trigger] s[i] != '\n'
}

proof fn lemma_lines_nonempty(s: Seq<char>)
    ensures
        lines(s).len() > 0,
    decreases s.len(),
{
    if s.len() > 0 {
        lemma_lines_nonempty(s.drop_last());
    }
}

proof fn lemma_lines_append(a: Seq<char>, b: Seq<char>)
    requires
        forall|i: int| 0 <= i < b.len() ==> #[trigger] b[i] != '\n',
    ensures
        lines(a + b) == lines(a).drop_last().push(lines(a).last() + b),
    decreases b.len(),
{
    lemma_lines_nonempty(a);
    if b.len() == 0 {
        assert(a + b =~= a);
        assert(lines(a).last() + b =~= lines(a).last());
        assert(lines(a) =~= lines(a).drop_last().push(lines(a).last()));
    } else {
        let init = b.drop_last();
        assert forall|i: int| 0 <= i < init.len() implies #[trigger] init[i] != '\n' by {
            assert(init[i] == b[i]);
        }
        lemma_lines_append(a, init);
        assert((a + b).drop_last() =~= a + init);
        assert((a + b).last() == b.last());
        assert(b[b.len() - 1] != '\n');
        let before = lines(a + init);
        assert(before.drop_last() =~= lines(a).drop_last());
        assert(before.last().push(b.last()) =~= lines(a).last() + b);
    }
}

proof fn lemma_lines_of_list(items: Seq<Seq<char>>)
    requires
        items.len() > 0,
        forall|k: int| 0 <= k < items.len() ==> plain_item(#[trigger] items[k]),
    ensures
        lines(stored_list(items)) == items,
    decreases items.len(),
{
    let last = items.last();
    assert(last == items[items.len() - 1]);
    if items.len() == 1 {
        let none = Seq::<char>::empty();
        lemma_lines_append(none, last);
        assert(none + last =~= last);
        assert(lines(none).last() + last =~= last);
        assert(lines(last) =~= items);
    } else {
        let init = items.drop_last();
        assert forall|k: int| 0 <= k < init.len() implies plain_item(#[trigger] init[k]) by {
            assert(init[k] == items[k]);
        }
        lemma_lines_of_list(init);
        let head = stored_list(init).push('\n');
        assert(head.drop_last() =~= stored_list(init));
        lemma_lines_append(head, last);
        assert(lines(head) == items.drop_last().push(Seq::empty()));
        assert(lines(head).drop_last() =~= items.drop_last());
        assert(lines(head).last() + last =~= last);
        assert(lines(stored_list(items)) =~= items);
    }
}

/// A stored list of plain items is read back as it was.
pub proof fn law_stored_list_read_back(items: Seq<Seq<char>>)
    requires
        forall|k: int| 0 <= k < items.len() ==> plain_item(#[trigger] items[k]),
    ensures
        stored_items(stored_list(items)) == items,
{
    let keep = |l: Seq<char>| l.len() > 0;
    let trim = |l: Seq<char>| trimmed(l);
    if items.len() == 0 {
        let none = Seq::<Seq<char>>::empty().push(Seq::empty());
        assert(lines(stored_list(items)) =~= none);
        let t = none.map_values(trim);
        assert(trimmed(Seq::empty()) =~= Seq::<char>::empty());
        crate::rows::lemma_count_zero(t, keep);
        assert forall|k: int| 0 <= k < t.len() implies !keep(#[trigger] t[k]) by {}
        assert(t.filter(keep) =~= items);
    } else {
        lemma_lines_of_list(items);
        assert(items.map_values(trim) =~= items) by {
            assert forall|k: int| 0 <= k < items.len() implies trim(#[trigger] items[k])
                == items[k] by {
                assert(plain_item(items[k]));
            }
        }
        lemma_filter_all(items, keep);
    }
}

/// Selecting rows that all satisfy the condition changes nothing.
proof fn lemma_filter_all<T>(rows: Seq<T>, hit: spec_fn(T) -> bool)
    requires
        forall|k: int| 0 <= k < rows.len() ==> hit(#[trigger] rows[k]),
    ensures
        rows.filter(hit) == rows,
    decreases rows.len(),
{
    reveal(Seq::filter);
    if rows.len() > 0 {
        let init = rows.drop_last();
        assert forall|k: int| 0 <= k < init.len() implies hit(#[trigger] init[k]) by {
            assert(init[k] == rows[k]);
        }
        lemma_filter_all(init, hit);
        assert(rows[rows.len() - 1] == rows.last());
        assert(rows =~= init.push(rows.last()));
        init.lemma_filter_push(rows.last(), hit);
    }
}

/// What a list of texts spells.
pub open spec fn spelled(list: Seq<String>) -> Seq<Seq<char>> {
    list.map_values(|t: String| t@)
}

/// The items of a stored list.
pub fn read_list(text: &str) -> (r: Vec<String>)
    ensures
        spelled(r@) == stored_items(text@),
{
    let chars = chars_of(text);
    let mut all: Vec<Vec<char>> = Vec::new();
    let mut current: Vec<char> = Vec::new();
    let mut i: usize = 0;
    assert(crate::text::spellings(all@).push(current@) =~= lines(chars@.take(0)));
    while i < chars.len()
        invariant
            i <= chars@.len(),
            crate::text::spellings(all@).push(current@) == lines(chars@.take(i as int)),
        decreases chars@.len() - i,
    {
        let c = chars[i];
        let ghost have = crate::text::spellings(all@);
        let ghost was = current@;
        proof {
            assert(chars@.take(i + 1).drop_last() =~= chars@.take(i as int));
            assert(have.push(was).drop_last() =~= have);
        }
        if c == '\n' {
            let mut done: Vec<char> = Vec::new();
            std::mem::swap(&mut done, &mut current);
            all.push(done);
            assert(crate::text::spellings(all@) =~= have.push(was));
            assert(current@ =~= Seq::empty());
        } else {
            current.push(c);
        }
        i += 1;
    }
    assert(chars@.take(i as int) =~= chars@);
    all.push(current);
    assert(crate::text::spellings(all@) =~= lines(text@));
    let ghost trim = |l: Seq<char>| trimmed(l);
    let ghost keep = |l: Seq<char>| l.len() > 0;
    let ghost cut = lines(text@).map_values(trim);
    let mut out: Vec<String> = Vec::new();
    let mut j: usize = 0;
    proof {
        lemma_filter_none(cut, keep);
        assert(spelled(out@) =~= Seq::empty());
    }
    while j < all.len()
        invariant
            j <= all@.len(),
            crate::text::spellings(all@) == lines(text@),
            trim == (|l: Seq<char>| trimmed(l)),
            keep == (|l: Seq<char>| l.len() > 0),
            cut == lines(text@).map_values(trim),
            spelled(out@) == cut.take(j as int).filter(keep),
        decreases all@.len() - j,
    {
        let line = trim_chars(&all[j]);
        proof {
            lemma_filter_step(cut, keep, j as int);
            assert(crate::text::spellings(all@)[j as int] == all@[j as int]@);
            assert(cut[j as int] == line@);
        }
        if line.len() > 0 {
            let ghost had = spelled(out@);
            let t = text_of(&line);
            out.push(t);
            assert(spelled(out@) =~= had.push(line@));
        }
        j += 1;
    }
    proof {
        lemma_filter_none(cut, keep);
        assert(cut.len() == all@.len());
    }
    out
}

/// A list as it is stored.
pub fn write_list(items: &[String]) -> (r: String)
    ensures
        r@ == stored_list(spelled(items@)),
{
    let ghost all = spelled(items@);
    let mut out: Vec<char> = Vec::new();
    let mut i: usize = 0;
    assert(all.take(0) =~= Seq::empty());
    while i < items.len()
        invariant
            i <= items@.len(),
            all == spelled(items@),
            out@ == stored_list(all.take(i as int)),
        decreases items@.len() - i,
    {
        assert(all.take(i + 1).drop_last() =~= all.take(i as int));
        assert(all.take(i + 1).last() == items@[i as int]@);
        if i > 0 {
            out.push('\n');
        }
        append_chars(&mut out, &chars_of(items[i].as_str()));
        i += 1;
        assert(out@ =~= stored_list(all.take(i as int)));
    }
    assert(all.take(i as int) =~= all);
    text_of(&out)
}

impl Db {
    /// The value of a setting.
    pub fn get_setting(&self, key: &str) -> (r: Result<Option<String>, DbError>)
        ensures
            r == Ok::<Option<String>, DbError>(setting(self.settings@, key@)),
    {
        let mut i: usize = 0;
        while i < self.settings.len()
            invariant
                i <= self.settings@.len(),
                forall|k: int| 0 <= k < i ==> !keyed(key@)(#[trigger] self.settings@[k]),
            decreases self.settings@.len() - i,
        {
            if same_text(self.settings[i].key.as_str(), key) {
                proof {
                    lemma_first_where_at(self.settings@, keyed(key@), i as int);
                }
                return Ok(Some(self.settings[i].value.clone()));
            }
            i += 1;
        }
        proof {
            lemma_first_where_none(self.settings@, keyed(key@));
        }
        Ok(None)
    }

    /// Makes a setting.
    pub fn set_setting(&mut self, key: &str, value: &str) -> (r: Result<(), DbError>)
        requires
            old(self).well_formed(),
        ensures
            r is Ok,
            final(self).well_formed(),
            only_settings(*old(self), *final(self)),
            setting_made(old(self).settings@, final(self).settings@, key@, value@),
    {
        let ghost rows = self.settings@;
        let mut i: usize = 0;
        while i < self.settings.len()
            invariant
                *self == *old(self),
                self.well_formed(),
                i <= self.settings@.len(),
                rows == self.settings@,
                forall|k: int| 0 <= k < i ==> !keyed(key@)(#[trigger] rows[k]),
            decreases self.settings@.len() - i,
        {
            if same_text(self.settings[i].key.as_str(), key) {
                self.settings[i].value = value.to_owned();
                proof {
                    lemma_first_where_at(rows, keyed(key@), i as int);
                    let now = self.settings@;
                    assert(now =~= rows.update(i as int, now[i as int]));
                    assert forall|k: int| 0 <= k < rows.len() && k != i implies !keyed(key@)(
                        #[trigger] rows[k],
                    ) by {
                        if k > i {
                            assert(rows[i as int].key@ != rows[k].key@);
                        }
                    }
                }
                return Ok(());
            }
            i += 1;
        }
        proof {
            lemma_first_where_none(rows, keyed(key@));
        }
        self.settings.push(SettingRow { key: key.to_owned(), value: value.to_owned() });
        proof {
            assert(self.settings@.drop_last() =~= rows);
            assert forall|k: int| 0 <= k < rows.len() implies (#[trigger] rows[k]).key@ != key@ by {
                assert(!keyed(key@)(rows[k]));
            }
        }
        Ok(())
    }

    /// Takes a setting away.
    pub fn delete_setting(&mut self, key: &str) -> (r: Result<(), DbError>)
        requires
            old(self).well_formed(),
        ensures
            r is Ok,
            final(self).well_formed(),
            only_settings(*old(self), *final(self)),
            final(self).settings@ == old(self).settings@.filter(other_key(key@)),
    {
        let ghost rows = self.settings@;
        let ghost hit = other_key(key@);
        let mut kept: Vec<SettingRow> = Vec::new();
        let mut i: usize = 0;
        proof {
            lemma_filter_none(rows, hit);
        }
        while i < self.settings.len()
            invariant
                *self == *old(self),
                i <= self.settings@.len(),
                rows == self.settings@,
                hit == other_key(key@),
                kept@ == rows.take(i as int).filter(hit),
            decreases self.settings@.len() - i,
        {
            proof {
                lemma_filter_step(rows, hit, i as int);
            }
            if !same_text(self.settings[i].key.as_str(), key) {
                kept.push(
                    SettingRow {
                        key: self.settings[i].key.clone(),
                        value: self.settings[i].value.clone(),
                    },
                );
            }
            i += 1;
        }
        proof {
            lemma_filter_none(rows, hit);
            let each = |r: SettingRow| true;
            let rel = |a: SettingRow, b: SettingRow| a.key@ != b.key@;
            lemma_filter_pairwise(rows, hit, each, rel);
            let f = rows.filter(hit);
            assert forall|a: int, b: int| 0 <= a < b < f.len() implies #[trigger] f[a].key@
                != #[trigger] f[b].key@ by {
                assert(rel(f[a], f[b]));
            }
        }
        self.settings = kept;
        Ok(())
    }

    /// The items of the list that a setting holds; none when it is not set.
    fn get_list(&self, key: &str) -> (r: Vec<String>)
        ensures
            spelled(r@) == match setting(self.settings@, key@) {
                Some(v) => stored_items(v@),
                None => Seq::empty(),
            },
    {
        match self.get_setting(key) {
            Ok(Some(v)) => read_list(v.as_str()),
            _ => {
                let none: Vec<String> = Vec::new();
                assert(spelled(none@) =~= Seq::empty());
                none
            },
        }
    }

    /// The genres that the deck never offers.
    pub fn get_banned_genres(&self) -> (r: Result<Vec<String>, DbError>)
        ensures
            r is Ok,
            spelled(r->Ok_0@) == listed_under(self.settings@, "banned_genres"@),
    {
        Ok(self.get_list("banned_genres"))
    }

    /// Sets the genres that the deck never offers.
    pub fn set_banned_genres(&mut self, genres: &[String]) -> (r: Result<(), DbError>)
        requires
            old(self).well_formed(),
        ensures
            r is Ok,
            final(self).well_formed(),
            only_settings(*old(self), *final(self)),
            setting_made(
                old(self).settings@,
                final(self).settings@,
                "banned_genres"@,
                stored_list(spelled(genres@)),
            ),
    {
        let text = write_list(genres);
        self.set_setting("banned_genres", text.as_str())
    }

    /// The formats that the deck never offers.
    pub fn get_banned_formats(&self) -> (r: Result<Vec<String>, DbError>)
        ensures
            r is Ok,
            spelled(r->Ok_0@) == listed_under(self.settings@, "banned_formats"@),
    {
        Ok(self.get_list("banned_formats"))
    }

    /// Sets the formats that the deck never offers.
    pub fn set_banned_formats(&mut self, formats: &[String]) -> (r: Result<(), DbError>)
        requires
            old(self).well_formed(),
        ensures
            r is Ok,
            final(self).well_formed(),
            only_settings(*old(self), *final(self)),
            setting_made(
                old(self).settings@,
                final(self).settings@,
                "banned_formats"@,
                stored_list(spelled(formats@)),
            ),
    {
        let text = write_list(formats);
        self.set_setting("banned_formats", text.as_str())
    }

    /// Whether the deck leaves out titles that have not come out yet; it does
    /// not unless that was set.
    pub fn get_hide_upcoming_releases(&self) -> (r: Result<bool, DbError>)
        ensures
            r == Ok::<bool, DbError>(hides_upcoming(self.settings@)),
    {
        match self.get_setting("hide_upcoming_releases") {
            Ok(Some(v)) => Ok(same_text(v.as_str(), "true")),
            _ => Ok(false),
        }
    }

    /// Sets whether the deck leaves out titles that have not come out yet.
    pub fn set_hide_upcoming_releases(&mut self, hide: bool) -> (r: Result<(), DbError>)
        requires
            old(self).well_formed(),
        ensures
            r is Ok,
            final(self).well_formed(),
            only_settings(*old(self), *final(self)),
            setting_made(
                old(self).settings@,
                final(self).settings@,
                "hide_upcoming_releases"@,
                flag_text(hide),
            ),
    {
        if hide {
            self.set_setting("hide_upcoming_releases", "true")
        } else {
            self.set_setting("hide_upcoming_releases", "false")
        }
    }
}

} // verus!
