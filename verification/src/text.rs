//! Text primitives: characters, words and comparisons.
//!
//! Titles are handled as sequences of characters. Splitting a text into words
//! and joining words back are the two operations that every other module is
//! stated over.

use vstd::prelude::*;

verus! {

/// What `char::is_alphanumeric` answers for a character.
pub uninterp spec fn unicode_alphanumeric(c: char) -> bool;

/// What `char::is_whitespace` answers for a character.
pub uninterp spec fn unicode_white_space(c: char) -> bool;

/// Whether Unicode counts a character as an upper-case letter.
pub uninterp spec fn upper_case(c: char) -> bool;

/// Whether Unicode counts a character as a lower-case letter.
pub uninterp spec fn lower_case(c: char) -> bool;

/// What `str::to_lowercase` makes of a text.
pub uninterp spec fn unicode_lowercase(s: Seq<char>) -> Seq<char>;

/// A text with every letter turned to upper case.
pub uninterp spec fn uppercase(s: Seq<char>) -> Seq<char>;

/// Whether a character is one of the ASCII letters and digits.
pub open spec fn ascii_alphanumeric(c: char) -> bool {
    ('0' <= c && c <= '9') || ('A' <= c && c <= 'Z') || ('a' <= c && c <= 'z')
}

/// Whether a character is one of the visible ones of ASCII and Latin-1.
pub open spec fn latin_visible(c: char) -> bool {
    ('!' <= c && c <= '~') || ('\u{a1}' <= c && c <= '\u{ff}')
}

/// Whether Unicode counts a character as white space. The space is; a visible
/// character of ASCII or Latin-1 is not.
pub open spec fn white_space(c: char) -> bool {
    c == ' ' || (!latin_visible(c) && unicode_white_space(c))
}

/// Whether Unicode counts a character as a letter or a number. Of the ASCII
/// characters only the letters and digits are; white space is not.
pub open spec fn alphanumeric(c: char) -> bool {
    ascii_alphanumeric(c) || ('\u{80}' <= c && !white_space(c) && unicode_alphanumeric(c))
}

/// Whether every character of a text is an ASCII one.
pub open spec fn ascii_text(s: Seq<char>) -> bool {
    forall|i: int| 0 <= i < s.len() ==> (#[trigger] s[i]) < '\u{80}'
}

/// A text with every letter turned to lower case. Of an ASCII text only the
/// ASCII letters change, and no ASCII letter in upper case is left in any text.
pub open spec fn lowercase(s: Seq<char>) -> Seq<char> {
    if ascii_text(s) { folded(s) } else { folded(unicode_lowercase(s)) }
}

/// `char::is_alphanumeric`: the answer depends on the character alone. Of the
/// ASCII characters it is yes for the letters and digits alone. It is no for
/// white space, which has none of the properties of letters and numbers.
pub assume_specification[ char::is_alphanumeric ](c: char) -> (r: bool)
    ensures
        r == (ascii_alphanumeric(c) || ('\u{80}' <= c && !white_space(c)
            && unicode_alphanumeric(c))),
;

/// `char::is_whitespace`: the answer depends on the character alone. It is yes
/// for the space, and no for the visible characters of ASCII and Latin-1.
pub assume_specification[ char::is_whitespace ](c: char) -> (r: bool)
    ensures
        r == (c == ' ' || (!latin_visible(c) && unicode_white_space(c))),
;

/// `char::is_uppercase`: the answer depends on the character alone.
pub assume_specification[ char::is_uppercase ](c: char) -> (r: bool)
    ensures
        r == upper_case(c),
;

/// `char::is_lowercase`: the answer depends on the character alone.
pub assume_specification[ char::is_lowercase ](c: char) -> (r: bool)
    ensures
        r == lower_case(c),
;

/// `str::to_lowercase`: the result depends on the text alone. Of an ASCII text
/// only the ASCII letters change, and no ASCII letter in upper case is left in
/// any text.
pub assume_specification[ str::to_lowercase ](s: &str) -> (r: String)
    ensures
        r@ == if ascii_text(s@) { folded(s@) } else { folded(unicode_lowercase(s@)) },
;

/// `str::to_uppercase`: the result depends on the text alone.
pub assume_specification[ str::to_uppercase ](s: &str) -> (r: String)
    ensures
        r@ == uppercase(s@),
;

/// `String::push`: appends one character at the end.
pub assume_specification[ String::push ](s: &mut String, c: char)
    ensures
        final(s)@ == old(s)@.push(c),
;

/// The characters of a text.
pub fn chars_of(s: &str) -> (r: Vec<char>)
    ensures
        r@ == s@,
{
    let mut out: Vec<char> = Vec::new();
    for c in it: s.chars()
        invariant
            it.seq() == s@,
            out@ == s@.take(it.index()),
    {
        proof {
            s@.lemma_take_succ_push(it.index());
        }
        out.push(c);
    }
    assert(s@.take(s@.len() as int) == s@);
    out
}

/// The text made of the given characters.
pub fn text_of(chars: &Vec<char>) -> (r: String)
    ensures
        r@ == chars@,
{
    let mut out = String::new();
    let mut i: usize = 0;
    while i < chars.len()
        invariant
            i <= chars.len(),
            out@ == chars@.take(i as int),
        decreases chars.len() - i,
    {
        out.push(chars[i]);
        i += 1;
        assert(chars@.take(i as int) == chars@.take(i - 1).push(chars@[i - 1]));
    }
    assert(chars@.take(i as int) == chars@);
    out
}

/// Whether two character lists hold the same characters in the same order.
pub fn same_chars(a: &Vec<char>, b: &Vec<char>) -> (r: bool)
    ensures
        r == (a@ == b@),
{
    if a.len() != b.len() {
        return false;
    }
    let mut i: usize = 0;
    while i < a.len()
        invariant
            i <= a.len(),
            a.len() == b.len(),
            forall|k: int| 0 <= k < i ==> a@[k] == b@[k],
        decreases a.len() - i,
    {
        if a[i] != b[i] {
            return false;
        }
        i += 1;
    }
    assert(a@ =~= b@);
    true
}

/// Whether a character list spells the given text.
pub fn spells(chars: &Vec<char>, text: &str) -> (r: bool)
    ensures
        r == (chars@ == text@),
{
    let other = chars_of(text);
    same_chars(chars, &other)
}

/// Whether two texts are equal.
pub fn same_text(a: &str, b: &str) -> (r: bool)
    ensures
        r == (a@ == b@),
{
    let ca = chars_of(a);
    let cb = chars_of(b);
    same_chars(&ca, &cb)
}

/// The two ways in which a text falls apart into words.
#[derive(Clone, Copy, PartialEq, Eq, Structural)]
pub enum WordKind {
    /// Maximal runs of letters and numbers.
    Alphanumeric,
    /// Maximal runs of anything but white space.
    Visible,
}

impl WordKind {
    /// Whether a character belongs to a word of this kind.
    pub open spec fn holds(self, c: char) -> bool {
        match self {
            WordKind::Alphanumeric => alphanumeric(c),
            WordKind::Visible => !white_space(c),
        }
    }

    /// Whether a character belongs to a word of this kind.
    pub fn admits(self, c: char) -> (r: bool)
        ensures
            r == self.holds(c),
    {
        match self {
            WordKind::Alphanumeric => c.is_alphanumeric(),
            WordKind::Visible => !c.is_whitespace(),
        }
    }
}

/// The words of a text, in order: its maximal runs of characters of one kind.
pub open spec fn words(s: Seq<char>, kind: WordKind) -> Seq<Seq<char>>
    decreases s.len(),
{
    if s.len() == 0 {
        Seq::empty()
    } else {
        let before = words(s.drop_last(), kind);
        if !kind.holds(s.last()) {
            before
        } else if s.len() >= 2 && kind.holds(s[s.len() - 2]) {
            before.drop_last().push(before.last().push(s.last()))
        } else {
            before.push(seq![s.last()])
        }
    }
}

/// Words put behind each other with one space between neighbours.
pub open spec fn join(words: Seq<Seq<char>>) -> Seq<char>
    decreases words.len(),
{
    if words.len() == 0 {
        Seq::empty()
    } else if words.len() == 1 {
        words[0]
    } else {
        join(words.drop_last()).push(' ') + words.last()
    }
}

/// Words put behind each other with nothing between them.
pub open spec fn concatenation(words: Seq<Seq<char>>) -> Seq<char>
    decreases words.len(),
{
    if words.len() == 0 {
        Seq::empty()
    } else {
        concatenation(words.drop_last()) + words.last()
    }
}

/// What a list of character lists spells.
pub open spec fn spellings(list: Seq<Vec<char>>) -> Seq<Seq<char>> {
    list.map_values(|w: Vec<char>| w@)
}

/// Every word of a text is non-empty and made of characters of the kind, and
/// a text that ends inside a word has a last word.
pub proof fn lemma_words_are_runs(s: Seq<char>, kind: WordKind)
    ensures
        forall|i: int, j: int|
            0 <= i < words(s, kind).len() && 0 <= j < words(s, kind)[i].len() ==> kind.holds(
                #[trigger] words(s, kind)[i][j],
            ),
        forall|i: int| 0 <= i < words(s, kind).len() ==> #[trigger] words(s, kind)[i].len() > 0,
        s.len() > 0 && kind.holds(s.last()) ==> words(s, kind).len() > 0,
    decreases s.len(),
{
    if s.len() > 0 {
        lemma_words_are_runs(s.drop_last(), kind);
        let before = words(s.drop_last(), kind);
        let now = words(s, kind);
        if s.len() >= 2 {
            assert(s.drop_last().last() == s[s.len() - 2]);
        }
        assert forall|i: int| 0 <= i < now.len() implies #[trigger] now[i].len() > 0 by {
            if i < before.len() {
                assert(before[i].len() > 0);
            }
        }
        assert forall|i: int, j: int|
            0 <= i < now.len() && 0 <= j < now[i].len() implies kind.holds(
            #[trigger] now[i][j],
        ) by {
            if i < before.len() && j < before[i].len() {
                assert(kind.holds(before[i][j]));
            }
        }
    }
}

/// Whether a list holds words of a kind: none is empty, and all characters are
/// of the kind.
pub open spec fn are_words(w: Seq<Seq<char>>, kind: WordKind) -> bool {
    &&& forall|i: int| 0 <= i < w.len() ==> #[trigger] w[i].len() > 0
    &&& forall|i: int, j: int|
        0 <= i < w.len() && 0 <= j < w[i].len() ==> kind.holds(#[trigger] w[i][j])
}

/// Whether two texts differ only in characters that belong to no word.
pub open spec fn same_words_in_place(a: Seq<char>, b: Seq<char>, kind: WordKind) -> bool {
    &&& a.len() == b.len()
    &&& forall|i: int|
        0 <= i < a.len() ==> (#[trigger] a[i]) == b[i] || (!kind.holds(a[i]) && !kind.holds(b[i]))
}

/// What stands between words does not count.
pub proof fn law_separators_do_not_count(a: Seq<char>, b: Seq<char>, kind: WordKind)
    requires
        same_words_in_place(a, b, kind),
    ensures
        words(a, kind) == words(b, kind),
    decreases a.len(),
{
    if a.len() > 0 {
        let n = a.len() - 1;
        let x = a.drop_last();
        let y = b.drop_last();
        assert forall|i: int| 0 <= i < x.len() implies (#[trigger] x[i]) == y[i] || (!kind.holds(
            x[i],
        ) && !kind.holds(y[i])) by {
            assert(x[i] == a[i]);
            assert(y[i] == b[i]);
        }
        law_separators_do_not_count(x, y, kind);
        assert(a[n] == b[n] || (!kind.holds(a[n]) && !kind.holds(b[n])));
        if n > 0 {
            assert(a[n - 1] == b[n - 1] || (!kind.holds(a[n - 1]) && !kind.holds(b[n - 1])));
        }
    }
}

/// A text that goes on with a space and a word has that word behind its others.
pub proof fn lemma_words_append(s: Seq<char>, w: Seq<char>, n: int, kind: WordKind)
    requires
        0 < n <= w.len(),
        forall|j: int| 0 <= j < w.len() ==> kind.holds(#[trigger] w[j]),
    ensures
        words(s.push(' ') + w.take(n), kind) == words(s, kind).push(w.take(n)),
    decreases n,
{
    let t = s.push(' ') + w.take(n);
    assert(kind.holds(w[n - 1]));
    assert(t.last() == w[n - 1]);
    if n == 1 {
        assert(t.drop_last() =~= s.push(' '));
        assert(s.push(' ').drop_last() =~= s);
        assert(!kind.holds(' '));
        assert(words(s.push(' '), kind) == words(s, kind));
        assert(t[t.len() - 2] == ' ');
        assert(w.take(1) =~= seq![t.last()]);
    } else {
        assert(t.drop_last() =~= s.push(' ') + w.take(n - 1));
        lemma_words_append(s, w, n - 1, kind);
        assert(kind.holds(w[n - 2]));
        assert(t[t.len() - 2] == w[n - 2]);
        let before = words(s, kind).push(w.take(n - 1));
        assert(before.drop_last() =~= words(s, kind));
        assert(w.take(n - 1).push(w[n - 1]) =~= w.take(n));
    }
}

proof fn lemma_one_word(w: Seq<char>, n: int, kind: WordKind)
    requires
        0 < n <= w.len(),
        forall|j: int| 0 <= j < w.len() ==> kind.holds(#[trigger] w[j]),
    ensures
        words(w.take(n), kind) == seq![w.take(n)],
    decreases n,
{
    let t = w.take(n);
    assert(kind.holds(w[n - 1]));
    assert(t.last() == w[n - 1]);
    if n == 1 {
        assert(words(t.drop_last(), kind) =~= Seq::empty());
        assert(w.take(1) =~= seq![t.last()]);
        assert(words(t, kind) =~= seq![w.take(1)]);
    } else {
        assert(t.drop_last() =~= w.take(n - 1));
        lemma_one_word(w, n - 1, kind);
        assert(kind.holds(w[n - 2]));
        assert(t[t.len() - 2] == w[n - 2]);
        assert(w.take(n - 1).push(w[n - 1]) =~= w.take(n));
        assert(words(t, kind) =~= seq![w.take(n)]);
    }
}

/// Splitting a text undoes joining its words.
pub proof fn law_split_undoes_join(w: Seq<Seq<char>>, kind: WordKind)
    requires
        are_words(w, kind),
    ensures
        words(join(w), kind) == w,
    decreases w.len(),
{
    if w.len() == 0 {
        assert(words(join(w), kind) =~= w);
    } else {
        let last = w.last();
        assert(w[w.len() - 1].len() > 0);
        assert forall|j: int| 0 <= j < last.len() implies kind.holds(#[trigger] last[j]) by {
            assert(kind.holds(w[w.len() - 1][j]));
        }
        assert(last.take(last.len() as int) =~= last);
        if w.len() == 1 {
            lemma_one_word(last, last.len() as int, kind);
            assert(w =~= seq![last]);
        } else {
            let init = w.drop_last();
            assert forall|i: int| 0 <= i < init.len() implies #[trigger] init[i].len() > 0 by {
                assert(init[i] == w[i]);
            }
            assert forall|i: int, j: int|
                0 <= i < init.len() && 0 <= j < init[i].len() implies kind.holds(
                #[trigger] init[i][j],
            ) by {
                assert(kind.holds(w[i][j]));
            }
            law_split_undoes_join(init, kind);
            lemma_words_append(join(init), last, last.len() as int, kind);
            assert(w =~= init.push(last));
        }
    }
}

/// What holds of every character of a text holds of those of its words.
pub proof fn lemma_words_hold(s: Seq<char>, kind: WordKind, p: spec_fn(char) -> bool)
    requires
        forall|i: int| 0 <= i < s.len() ==> p(#[trigger] s[i]),
    ensures
        forall|i: int, j: int|
            0 <= i < words(s, kind).len() && 0 <= j < words(s, kind)[i].len() ==> p(
                #[trigger] words(s, kind)[i][j],
            ),
    decreases s.len(),
{
    if s.len() > 0 {
        let init = s.drop_last();
        assert forall|i: int| 0 <= i < init.len() implies p(#[trigger] init[i]) by {
            assert(init[i] == s[i]);
        }
        lemma_words_hold(init, kind, p);
        lemma_words_are_runs(init, kind);
        let before = words(init, kind);
        let now = words(s, kind);
        if s.len() >= 2 {
            assert(init.last() == s[s.len() - 2]);
        }
        assert(p(s[s.len() - 1]));
        assert forall|i: int, j: int| 0 <= i < now.len() && 0 <= j < now[i].len() implies p(
            #[trigger] now[i][j],
        ) by {
            if i < before.len() && j < before[i].len() {
                assert(p(before[i][j]));
            }
        }
    }
}

/// What holds of the space and of every character of words holds of the words
/// put together.
pub proof fn lemma_join_holds(w: Seq<Seq<char>>, p: spec_fn(char) -> bool)
    requires
        p(' '),
        forall|i: int, j: int|
            0 <= i < w.len() && 0 <= j < w[i].len() ==> p(#[trigger] w[i][j]),
    ensures
        forall|i: int| 0 <= i < join(w).len() ==> p(#[trigger] join(w)[i]),
    decreases w.len(),
{
    if w.len() > 0 {
        let init = w.drop_last();
        assert forall|i: int, j: int| 0 <= i < init.len() && 0 <= j < init[i].len() implies p(
            #[trigger] init[i][j],
        ) by {
            assert(p(w[i][j]));
        }
        lemma_join_holds(init, p);
        assert forall|i: int| 0 <= i < join(w).len() implies p(#[trigger] join(w)[i]) by {
            let last = w[w.len() - 1];
            if w.len() == 1 {
                assert(p(w[0][i]));
            } else if i < join(init).len() {
                assert(join(w)[i] == join(init)[i]);
            } else if i > join(init).len() {
                assert(p(last[i - join(init).len() - 1]));
            }
        }
    }
}

/// The characters of words put behind each other are of the words' kind.
pub proof fn lemma_concatenation_holds(w: Seq<Seq<char>>, kind: WordKind)
    requires
        are_words(w, kind),
    ensures
        forall|i: int|
            0 <= i < concatenation(w).len() ==> kind.holds(#[trigger] concatenation(w)[i]),
    decreases w.len(),
{
    if w.len() > 0 {
        let init = w.drop_last();
        let last = w[w.len() - 1];
        assert forall|i: int| 0 <= i < init.len() implies #[trigger] init[i].len() > 0 by {
            assert(init[i] == w[i]);
        }
        assert forall|i: int, j: int|
            0 <= i < init.len() && 0 <= j < init[i].len() implies kind.holds(
            #[trigger] init[i][j],
        ) by {
            assert(kind.holds(w[i][j]));
        }
        lemma_concatenation_holds(init, kind);
        assert forall|i: int| 0 <= i < concatenation(w).len() implies kind.holds(
            #[trigger] concatenation(w)[i],
        ) by {
            if i < concatenation(init).len() {
                assert(concatenation(w)[i] == concatenation(init)[i]);
            } else {
                assert(kind.holds(last[i - concatenation(init).len()]));
            }
        }
    }
}

/// Joined words are empty only where there are none.
pub proof fn lemma_join_nonempty(w: Seq<Seq<char>>)
    requires
        w.len() > 0,
        w.last().len() > 0,
    ensures
        join(w).len() > 0,
        concatenation(w).len() > 0,
{
}

/// The words of a text, in order.
pub fn split_words(chars: &Vec<char>, kind: WordKind) -> (r: Vec<Vec<char>>)
    ensures
        spellings(r@) == words(chars@, kind),
{
    let mut out: Vec<Vec<char>> = Vec::new();
    let mut current: Vec<char> = Vec::new();
    let mut i: usize = 0;
    while i < chars.len()
        invariant
            i <= chars.len(),
            (i > 0 && kind.holds(chars@[i - 1])) <==> current.len() > 0,
            current.len() > 0 ==> spellings(out@).push(current@) == words(
                chars@.take(i as int),
                kind,
            ),
            current.len() == 0 ==> spellings(out@) == words(chars@.take(i as int), kind),
        decreases chars.len() - i,
    {
        let c = chars[i];
        let ghost before = chars@.take(i as int);
        assert(chars@.take(i + 1).drop_last() == before);
        assert(chars@.take(i + 1).last() == c);
        if kind.admits(c) {
            current.push(c);
            proof {
                let w = words(before, kind);
                if i > 0 && kind.holds(chars@[i - 1]) {
                    assert(w.drop_last() == spellings(out@));
                    assert(w.last().push(c) == current@);
                } else {
                    assert(current@ == seq![c]);
                }
            }
        } else {
            if current.len() > 0 {
                let mut done: Vec<char> = Vec::new();
                std::mem::swap(&mut done, &mut current);
                out.push(done);
                assert(spellings(out@) == spellings(out@.drop_last()).push(done@));
            }
        }
        i += 1;
    }
    assert(chars@.take(i as int) == chars@);
    if current.len() > 0 {
        out.push(current);
        assert(spellings(out@) == spellings(out@.drop_last()).push(current@));
    }
    out
}

/// Words put behind each other with one space between neighbours.
pub fn join_words(list: &Vec<Vec<char>>) -> (r: Vec<char>)
    ensures
        r@ == join(spellings(list@)),
{
    let mut out: Vec<char> = Vec::new();
    let mut i: usize = 0;
    while i < list.len()
        invariant
            i <= list.len(),
            out@ == join(spellings(list@).take(i as int)),
        decreases list.len() - i,
    {
        let ghost sofar = spellings(list@).take(i as int);
        let ghost next = spellings(list@).take(i + 1);
        assert(next.drop_last() == sofar);
        assert(next.last() == list@[i as int]@);
        if i > 0 {
            out.push(' ');
        }
        append_chars(&mut out, &list[i]);
        i += 1;
    }
    assert(spellings(list@).take(i as int) == spellings(list@));
    out
}

/// Words put behind each other with nothing between them.
pub fn concat_words(list: &Vec<Vec<char>>) -> (r: Vec<char>)
    ensures
        r@ == concatenation(spellings(list@)),
{
    let mut out: Vec<char> = Vec::new();
    let mut i: usize = 0;
    while i < list.len()
        invariant
            i <= list.len(),
            out@ == concatenation(spellings(list@).take(i as int)),
        decreases list.len() - i,
    {
        let ghost next = spellings(list@).take(i + 1);
        assert(next.drop_last() == spellings(list@).take(i as int));
        assert(next.last() == list@[i as int]@);
        append_chars(&mut out, &list[i]);
        i += 1;
    }
    assert(spellings(list@).take(i as int) == spellings(list@));
    out
}

/// Puts `tail` behind `out`.
pub fn append_chars(out: &mut Vec<char>, tail: &Vec<char>)
    ensures
        final(out)@ == old(out)@ + tail@,
{
    let mut i: usize = 0;
    while i < tail.len()
        invariant
            i <= tail.len(),
            out@ == old(out)@ + tail@.take(i as int),
        decreases tail.len() - i,
    {
        out.push(tail[i]);
        i += 1;
        assert(tail@.take(i as int) == tail@.take(i - 1).push(tail@[i - 1]));
    }
    assert(tail@.take(i as int) == tail@);
}

/// A copy of the characters from `from` up to, not including, `to`.
pub fn copy_range(chars: &Vec<char>, from: usize, to: usize) -> (r: Vec<char>)
    requires
        from <= to <= chars@.len(),
    ensures
        r@ == chars@.subrange(from as int, to as int),
{
    let mut out: Vec<char> = Vec::new();
    let mut i: usize = from;
    while i < to
        invariant
            from <= i <= to <= chars@.len(),
            out@ == chars@.subrange(from as int, i as int),
        decreases to - i,
    {
        out.push(chars[i]);
        i += 1;
        assert(chars@.subrange(from as int, i as int) == chars@.subrange(
            from as int,
            i - 1,
        ).push(chars@[i - 1]));
    }
    out
}

/// Whether a character is one of the ten ASCII digits.
pub open spec fn ascii_digit(c: char) -> bool {
    '0' <= c && c <= '9'
}

/// The number that a digit stands for.
pub open spec fn digit_value(c: char) -> int {
    c as int - '0' as int
}

/// Whether a text is a non-empty run of ASCII digits.
pub open spec fn ascii_int(s: Seq<char>) -> bool {
    s.len() > 0 && forall|i: int| 0 <= i < s.len() ==> ascii_digit(#[trigger] s[i])
}

/// Whether the characters from `from` up to `to` are all ASCII digits.
pub fn digits_between(chars: &Vec<char>, from: usize, to: usize) -> (r: bool)
    requires
        from <= to <= chars@.len(),
    ensures
        r == forall|i: int| from <= i < to ==> ascii_digit(#[trigger] chars@[i]),
{
    let mut i: usize = from;
    while i < to
        invariant
            from <= i <= to <= chars@.len(),
            forall|k: int| from <= k < i ==> ascii_digit(#[trigger] chars@[k]),
        decreases to - i,
    {
        let c = chars[i];
        if c < '0' || c > '9' {
            assert(!ascii_digit(chars@[i as int]));
            return false;
        }
        i += 1;
    }
    true
}

/// Whether a text is a non-empty run of ASCII digits.
pub fn is_ascii_int(chars: &Vec<char>) -> (r: bool)
    ensures
        r == ascii_int(chars@),
{
    chars.len() > 0 && digits_between(chars, 0, chars.len())
}

/// A text without the white space at its end.
pub open spec fn trim_end(s: Seq<char>) -> Seq<char>
    decreases s.len(),
{
    if s.len() > 0 && white_space(s.last()) {
        trim_end(s.drop_last())
    } else {
        s
    }
}

/// A text without the white space at its start.
pub open spec fn trim_start(s: Seq<char>) -> Seq<char>
    decreases s.len(),
{
    if s.len() > 0 && white_space(s[0]) {
        trim_start(s.drop_first())
    } else {
        s
    }
}

/// A text without the white space at its two ends.
pub open spec fn trimmed(s: Seq<char>) -> Seq<char> {
    trim_end(trim_start(s))
}

/// A text without the white space at its two ends.
pub fn trim_chars(chars: &Vec<char>) -> (r: Vec<char>)
    ensures
        r@ == trimmed(chars@),
{
    let mut from: usize = 0;
    assert(chars@.subrange(0, chars@.len() as int) == chars@);
    while from < chars.len() && chars[from].is_whitespace()
        invariant
            from <= chars.len(),
            trim_start(chars@) == trim_start(chars@.subrange(from as int, chars@.len() as int)),
        decreases chars.len() - from,
    {
        let ghost here = chars@.subrange(from as int, chars@.len() as int);
        assert(here.drop_first() == chars@.subrange(from + 1, chars@.len() as int));
        from += 1;
    }
    let ghost kept = chars@.subrange(from as int, chars@.len() as int);
    assert(trim_start(kept) == kept);
    let mut to: usize = chars.len();
    while to > from && chars[to - 1].is_whitespace()
        invariant
            from <= to <= chars.len(),
            trim_end(kept) == trim_end(chars@.subrange(from as int, to as int)),
        decreases to,
    {
        let ghost here = chars@.subrange(from as int, to as int);
        assert(here.drop_last() == chars@.subrange(from as int, to - 1));
        to -= 1;
    }
    copy_range(chars, from, to)
}

/// Whether text `a` stands before text `b` in the order of their characters.
pub open spec fn precedes(a: Seq<char>, b: Seq<char>) -> bool
    decreases a.len(),
{
    if b.len() == 0 {
        false
    } else if a.len() == 0 {
        true
    } else if a[0] != b[0] {
        a[0] < b[0]
    } else {
        precedes(a.drop_first(), b.drop_first())
    }
}

/// Of two texts one stands before the other unless they are equal, and never
/// both before each other.
pub proof fn lemma_precedes_total(a: Seq<char>, b: Seq<char>)
    ensures
        precedes(a, b) ==> !precedes(b, a),
        precedes(a, b) || precedes(b, a) || a == b,
        a == b ==> !precedes(a, b),
    decreases a.len(),
{
    if a.len() > 0 && b.len() > 0 {
        lemma_precedes_total(a.drop_first(), b.drop_first());
        if a[0] == b[0] && a.drop_first() == b.drop_first() {
            assert(a =~= seq![a[0]] + a.drop_first());
            assert(b =~= seq![b[0]] + b.drop_first());
        }
    } else if a.len() == 0 && b.len() == 0 {
        assert(a =~= b);
    }
}

/// The order of texts is transitive.
pub proof fn lemma_precedes_transitive(a: Seq<char>, b: Seq<char>, c: Seq<char>)
    ensures
        precedes(a, b) && precedes(b, c) ==> precedes(a, c),
        !precedes(b, a) && !precedes(c, b) ==> !precedes(c, a),
    decreases a.len(),
{
    if a.len() > 0 && b.len() > 0 && c.len() > 0 {
        lemma_precedes_transitive(a.drop_first(), b.drop_first(), c.drop_first());
    }
}

/// Whether text `a` stands before text `b` in the order of their characters.
pub fn text_precedes(a: &Vec<char>, b: &Vec<char>) -> (r: bool)
    ensures
        r == precedes(a@, b@),
{
    let mut i: usize = 0;
    assert(a@.skip(0) == a@);
    assert(b@.skip(0) == b@);
    while i < a.len() && i < b.len() && a[i] == b[i]
        invariant
            i <= a.len(),
            i <= b.len(),
            precedes(a@, b@) == precedes(a@.skip(i as int), b@.skip(i as int)),
        decreases a.len() - i,
    {
        assert(a@.skip(i as int).drop_first() == a@.skip(i + 1));
        assert(b@.skip(i as int).drop_first() == b@.skip(i + 1));
        i += 1;
    }
    if i >= b.len() {
        false
    } else if i >= a.len() {
        true
    } else {
        a[i] < b[i]
    }
}

/// An ASCII letter in lower case; any other character is left alone.
pub open spec fn ascii_lower(c: char) -> char {
    if 'A' <= c && c <= 'Z' {
        (c as u32 + 32) as char
    } else {
        c
    }
}

/// A text with its ASCII letters in lower case.
pub open spec fn folded(s: Seq<char>) -> Seq<char> {
    s.map_values(|c: char| ascii_lower(c))
}

/// A text with its ASCII letters in lower case.
pub fn fold_chars(chars: &Vec<char>) -> (r: Vec<char>)
    ensures
        r@ == folded(chars@),
{
    let mut out: Vec<char> = Vec::new();
    let mut i: usize = 0;
    while i < chars.len()
        invariant
            i <= chars.len(),
            out@ == folded(chars@.take(i as int)),
        decreases chars.len() - i,
    {
        let c = chars[i];
        if 'A' <= c && c <= 'Z' {
            out.push((c as u8 + 32) as char);
        } else {
            out.push(c);
        }
        i += 1;
        assert(chars@.take(i as int) =~= chars@.take(i - 1).push(chars@[i - 1]));
        assert(out@ =~= folded(chars@.take(i as int)));
    }
    assert(chars@.take(i as int) =~= chars@);
    out
}

/// Whether a text starts with another.
pub open spec fn starts_with(s: Seq<char>, head: Seq<char>) -> bool {
    head.len() <= s.len() && s.take(head.len() as int) == head
}

/// Whether the characters from `at` on start with `part`.
pub fn stands_at(chars: &Vec<char>, at: usize, part: &Vec<char>) -> (r: bool)
    requires
        at <= chars@.len(),
    ensures
        r == starts_with(chars@.skip(at as int), part@),
{
    if part.len() > chars.len() - at {
        return false;
    }
    let here = copy_range(chars, at, at + part.len());
    assert(here@ =~= chars@.skip(at as int).take(part@.len() as int));
    same_chars(&here, part)
}

/// Whether a text starts with another.
pub fn text_starts_with(text: &str, head: &str) -> (r: bool)
    ensures
        r == starts_with(text@, head@),
{
    let chars = chars_of(text);
    assert(chars@.skip(0) =~= chars@);
    stands_at(&chars, 0, &chars_of(head))
}

/// Whether a text occurs inside another.
pub open spec fn occurs_in(part: Seq<char>, s: Seq<char>) -> bool {
    exists|at: int| 0 <= at <= s.len() && #[trigger] starts_with(s.skip(at), part)
}

/// Whether a text occurs inside another.
pub fn chars_occur(part: &Vec<char>, chars: &Vec<char>) -> (r: bool)
    ensures
        r == occurs_in(part@, chars@),
{
    let mut at: usize = 0;
    loop
        invariant
            at <= chars@.len(),
            forall|k: int| 0 <= k < at ==> !#[trigger] starts_with(chars@.skip(k), part@),
        decreases chars@.len() - at,
    {
        if stands_at(chars, at, part) {
            return true;
        }
        if at == chars.len() {
            return false;
        }
        at += 1;
    }
}

/// The digit that stands for a number below ten.
pub open spec fn digit_char(d: int) -> char {
    if d == 0 {
        '0'
    } else if d == 1 {
        '1'
    } else if d == 2 {
        '2'
    } else if d == 3 {
        '3'
    } else if d == 4 {
        '4'
    } else if d == 5 {
        '5'
    } else if d == 6 {
        '6'
    } else if d == 7 {
        '7'
    } else if d == 8 {
        '8'
    } else {
        '9'
    }
}

/// A number in decimal digits.
pub open spec fn nat_text(n: nat) -> Seq<char>
    decreases n,
{
    if n < 10 {
        seq![digit_char(n as int)]
    } else {
        nat_text(n / 10).push(digit_char((n % 10) as int))
    }
}

/// A number in decimal digits, with a minus sign where it is negative.
pub open spec fn int_text(n: int) -> Seq<char> {
    if n < 0 { seq!['-'] + nat_text((-n) as nat) } else { nat_text(n as nat) }
}

/// Different numbers are written differently.
pub proof fn lemma_nat_text_injective(a: nat, b: nat)
    ensures
        nat_text(a) == nat_text(b) ==> a == b,
        nat_text(a).len() > 0,
        ascii_digit(nat_text(a)[0]),
    decreases a,
{
    if a >= 10 {
        lemma_nat_text_injective(a / 10, b / 10);
        if b >= 10 {
            let x = nat_text(a / 10);
            let y = nat_text(b / 10);
            if nat_text(a) == nat_text(b) {
                assert(x =~= nat_text(a).drop_last());
                assert(y =~= nat_text(b).drop_last());
                assert(nat_text(a).last() == nat_text(b).last());
            }
        } else {
            assert(nat_text(a).len() >= 2);
        }
    } else if b >= 10 {
        lemma_nat_text_nonempty(b / 10);
        assert(nat_text(b).len() >= 2);
    } else if nat_text(a) == nat_text(b) {
        assert(nat_text(a)[0] == nat_text(b)[0]);
    }
}

proof fn lemma_nat_text_nonempty(n: nat)
    ensures
        nat_text(n).len() > 0,
    decreases n,
{
    if n >= 10 {
        lemma_nat_text_nonempty(n / 10);
    }
}

/// Different numbers are written differently.
pub proof fn lemma_int_text_injective(a: int, b: int)
    ensures
        int_text(a) == int_text(b) ==> a == b,
{
    let x: nat = if a < 0 { (-a) as nat } else { a as nat };
    let y: nat = if b < 0 { (-b) as nat } else { b as nat };
    lemma_nat_text_injective(x, y);
    lemma_nat_text_injective(y, x);
    if int_text(a) == int_text(b) {
        assert(int_text(a)[0] == int_text(b)[0]);
        if a < 0 && b < 0 {
            assert(nat_text(x) =~= int_text(a).drop_first());
            assert(nat_text(y) =~= int_text(b).drop_first());
        }
    }
}

/// The digit that stands for a number below ten.
pub fn digit_of(d: u64) -> (r: char)
    requires
        d < 10,
    ensures
        r == digit_char(d as int),
{
    if d == 0 {
        '0'
    } else if d == 1 {
        '1'
    } else if d == 2 {
        '2'
    } else if d == 3 {
        '3'
    } else if d == 4 {
        '4'
    } else if d == 5 {
        '5'
    } else if d == 6 {
        '6'
    } else if d == 7 {
        '7'
    } else if d == 8 {
        '8'
    } else {
        '9'
    }
}

/// A number in decimal digits.
pub fn write_nat(n: u64) -> (r: Vec<char>)
    ensures
        r@ == nat_text(n as nat),
    decreases n,
{
    if n < 10 {
        let mut out: Vec<char> = Vec::new();
        out.push(digit_of(n));
        assert(out@ =~= seq![digit_char(n as int)]);
        out
    } else {
        let mut out = write_nat(n / 10);
        out.push(digit_of(n % 10));
        out
    }
}

/// A number in decimal digits, with a minus sign where it is negative.
pub fn write_int(n: i64) -> (r: Vec<char>)
    ensures
        r@ == int_text(n as int),
{
    if n < 0 {
        let mut out: Vec<char> = Vec::new();
        out.push('-');
        let wide: i128 = -(n as i128);
        let digits = write_nat(wide as u64);
        append_chars(&mut out, &digits);
        assert(out@ =~= seq!['-'] + nat_text((-n) as nat));
        out
    } else {
        write_nat(n as u64)
    }
}

} // verus!
