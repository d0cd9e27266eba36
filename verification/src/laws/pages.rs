//! Pages: which are kept, which may be opened, and how long is waited for them.

use vstd::prelude::*;
use crate::html_cache::{fresh, oldest, page_stored, Page};
use crate::scraper_engine::{
    cover_follows, internal_v4, internal_v6, json_blank, json_bool, json_text, json_trimmed, pause,
    paused, safe, said_loaded, said_ready, scrape_follows, CoverAction, CoverFailure, CoverStage,
    HostName, ScrapeAction, ScrapeFailure, ScrapeStage, ScriptOutcome, UrlParts,
};
use crate::text::folded;

verus! {

/// A page is fresh for ten minutes after it was stored, and no longer.
pub proof fn law_fresh_for_ten_minutes(page: Page, now: u64)
    ensures
        fresh(page, now) <==> now < page.stored_at + 10 * 60 * 1000,
{
}

/// The cache keeps at most sixty-four pages; where a page has to go, it is one that
/// was stored before all others, and only one goes.
pub proof fn law_cache_is_bounded(
    before: Map<Seq<char>, Page>,
    after: Map<Seq<char>, Page>,
    url: Seq<char>,
    page: Page,
)
    requires
        page_stored(before, after, url, page),
        before.dom().finite(),
        before.len() <= 64,
    ensures
        after.dom().finite(),
        after.len() <= 64,
        after.dom().contains(url) && after[url] == page,
        forall|u: Seq<char>| #[trigger]
            after.dom().contains(u) && u != url ==> before.dom().contains(u) && after[u]
                == before[u],
        forall|u: Seq<char>, v: Seq<char>|
            #![trigger before.dom().contains(u), before.dom().contains(v)]
            before.dom().contains(u) && !after.dom().contains(u) && before.dom().contains(v)
                ==> before[u].stored_at <= before[v].stored_at,
        before.len() < 64 ==> forall|u: Seq<char>| #[trigger]
            before.dom().contains(u) ==> after.dom().contains(u),
{
    if before.dom().contains(url) {
        assert(after.dom() =~= before.dom());
    } else if before.len() < 64 {
        assert(after.dom() =~= before.dom().insert(url));
    } else {
        let gone = choose|gone: Seq<char>| #[trigger]
            oldest(before, gone) && after == before.remove(gone).insert(url, page);
        assert(after.dom() =~= before.dom().remove(gone).insert(url));
        assert(before.dom().remove(gone).len() == before.dom().len() - 1);
    }
}

/// An address of four numbers as one.
pub open spec fn address(o: Seq<u8>) -> int {
    ((o[0] * 256 + o[1]) * 256 + o[2]) * 256 + o[3]
}

/// The addresses of four numbers that are not opened: those of the machine itself,
/// of private networks, of a link, and the one that stands for none.
pub proof fn law_internal_addresses(o: Seq<u8>)
    requires
        o.len() == 4,
    ensures
        internal_v4(o) <==> {
            ||| 127 * 0x100_0000 <= address(o) < 128 * 0x100_0000
            ||| 10 * 0x100_0000 <= address(o) < 11 * 0x100_0000
            ||| (172 * 256 + 16) * 0x1_0000 <= address(o) < (172 * 256 + 32) * 0x1_0000
            ||| (192 * 256 + 168) * 0x1_0000 <= address(o) < (192 * 256 + 169) * 0x1_0000
            ||| (169 * 256 + 254) * 0x1_0000 <= address(o) < (169 * 256 + 255) * 0x1_0000
            ||| address(o) == 0
        },
{
}

/// The addresses of eight numbers that are not opened: the machine itself, the one
/// that stands for none, and those whose first bits are those of a private network
/// or of a link.
pub proof fn law_internal_long_addresses(s: Seq<u16>)
    requires
        s.len() == 8,
    ensures
        internal_v6(s) <==> {
            ||| (forall|i: int| 0 <= i < 7 ==> #[trigger] s[i] == 0) && (s[7] == 0 || s[7] == 1)
            ||| s[0] as int / 512 == 0xfc00int / 512
            ||| s[0] as int / 64 == 0xfe80int / 64
        },
{
    if forall|i: int| 0 <= i < 7 ==> #[trigger] s[i] == 0 {
        assert(s[0] == 0 && s[1] == 0 && s[2] == 0 && s[3] == 0 && s[4] == 0 && s[5] == 0 && s[6]
            == 0);
    }
}

/// What is opened has the scheme of a web page and a host, which is not this
/// machine, however its name is written.
pub proof fn law_what_is_opened(u: UrlParts)
    ensures
        safe(u) ==> (u.scheme == "http"@ || u.scheme == "https"@) && u.host is Some,
        u.host matches Some(HostName::Domain(d)) ==> (safe(u) <==> (u.scheme == "http"@ || u.scheme
            == "https"@) && folded(d) != folded("localhost"@)),
        u.host matches Some(HostName::Ipv4(o)) ==> (safe(u) ==> !internal_v4(o)),
        u.host matches Some(HostName::Ipv6(s)) ==> (safe(u) ==> !internal_v6(s)),
        u.host matches Some(HostName::Ipv4(o)) && u.scheme == "https"@ && !internal_v4(o)
            ==> safe(u),
        u.host matches Some(HostName::Ipv6(s)) && u.scheme == "https"@ && !internal_v6(s)
            ==> safe(u),
{
}

/// The pauses between two looks at a page: the first is fifteen hundredths of a
/// second, each is half as long again as the one before, and none is above a second.
pub proof fn law_pauses_grow(n: nat)
    ensures
        pause(0) == 150_000_000,
        2 * pause(n + 1) <= 3 * pause(n),
        pause(n + 1) <= 1_000_000_000,
        pause(n + 1) < 1_000_000_000 ==> 3 * pause(n) - 1 <= 2 * pause(n + 1),
        paused(n + 1) == paused(n) + pause(n),
        paused(0) == 0,
{
    crate::scraper_engine::law_pauses_bounded(n);
}

/// A page that is not ready is looked at again until forty seconds have passed, and
/// given up after that.
pub proof fn law_waits_forty_seconds(
    stage: ScrapeStage,
    outcome: ScriptOutcome,
    elapsed: u64,
    scripted: bool,
    next: ScrapeStage,
    action: ScrapeAction,
)
    requires
        stage is Verifying,
        !said_ready(outcome),
        scrape_follows(stage, outcome, elapsed, scripted, next, action),
    ensures
        elapsed < 40_000_000_000 <==> action is Probe,
        elapsed < 40_000_000_000 <==> next is Verifying,
        elapsed >= 40_000_000_000 ==> action == ScrapeAction::Fail(ScrapeFailure::NotReady)
            && next == ScrapeStage::Finished,
        action matches ScrapeAction::Probe(p) ==> 2 * p <= 3 * stage->Verifying_0.interval && p
            <= 1_000_000_000,
{
}

/// What a page is scraped for: its text as it was read; where a script is to be run,
/// what the script said too. What cannot be read, or a script that fails, ends the
/// work with that.
pub proof fn law_scraped(
    stage: ScrapeStage,
    outcome: ScriptOutcome,
    elapsed: u64,
    scripted: bool,
    next: ScrapeStage,
    action: ScrapeAction,
)
    requires
        scrape_follows(stage, outcome, elapsed, scripted, next, action),
        stage is Extracting || stage is Episodes,
    ensures
        outcome matches ScriptOutcome::Failed(why) ==> action == ScrapeAction::Fail(
            ScrapeFailure::Script(why),
        ) && next == ScrapeStage::Finished,
        outcome matches ScriptOutcome::Answer(a) && json_text(a@) is None ==> action is Fail && next
            == ScrapeStage::Finished,
        stage is Extracting && !scripted ==> (outcome matches ScriptOutcome::Answer(a) && (
        json_text(a@) matches Some(html) ==> (action matches ScrapeAction::Done(r) && r.html@ == html
            && r.extra is None)) || outcome is Failed),
        stage is Extracting && scripted ==> (outcome matches ScriptOutcome::Answer(a) && (json_text(
            a@,
        ) matches Some(html) ==> action == ScrapeAction::RunScript && (
        next matches ScrapeStage::Episodes(h) && h@ == html)) || outcome is Failed),
        stage matches ScrapeStage::Episodes(html) ==> (outcome matches ScriptOutcome::Answer(a) && (
        json_text(a@) matches Some(text) ==> (action matches ScrapeAction::Done(r) && r.html == html
            && (r.extra matches Some(x) && x@ == text))) || outcome is Failed),
{
}

/// A cover is looked for twenty times and given up after that; one that has loaded
/// is read, and what was read is the cover.
pub proof fn law_cover_is_looked_for(
    polls: u32,
    stage: CoverStage,
    outcome: ScriptOutcome,
    next: CoverStage,
    action: CoverAction,
)
    requires
        cover_follows(stage, outcome, next, action),
    ensures
        stage == CoverStage::Loading(polls) && said_loaded(outcome) ==> action
            == CoverAction::ReadImage && next == CoverStage::Reading,
        stage == CoverStage::Loading(polls) && !said_loaded(outcome) && polls < 19 ==> next
            == CoverStage::Loading((polls + 1) as u32) && action is Probe,
        stage == CoverStage::Loading(polls) && !said_loaded(outcome) && polls >= 19 ==> action
            == CoverAction::Fail(CoverFailure::NotLoaded) && next == CoverStage::Finished,
        stage is Reading ==> next == CoverStage::Finished,
        stage is Reading ==> (outcome matches ScriptOutcome::Answer(a) && (json_text(a@) matches Some(
            image,
        ) ==> (action matches CoverAction::Done(i) && i@ == image)) || outcome is Failed),
        stage is Reading && outcome is Failed ==> action is Fail,
{
}

/// Whether a text is only what may stand around a value.
pub open spec fn blank(s: Seq<char>) -> bool {
    forall|i: int|
        0 <= i < s.len() ==> (#[trigger] s[i] == ' ' || s[i] == '\n' || s[i] == '\t' || s[i] == '\r')
}

/// A yes or a no is read with blanks around it; nothing else is one.
pub proof fn law_yes_or_no(a: Seq<char>, b: Seq<char>, json: Seq<char>)
    requires
        blank(a),
        blank(b),
    ensures
        json_bool(a + "true"@ + b) == Some(true),
        json_bool(a + "false"@ + b) == Some(false),
        json_bool(json) == Some(true) ==> exists|x: Seq<char>, y: Seq<char>|
            blank(x) && blank(y) && json == #[trigger] (x + "true"@ + y),
        json_bool(json) == Some(false) ==> exists|x: Seq<char>, y: Seq<char>|
            blank(x) && blank(y) && json == #[trigger] (x + "false"@ + y),
{
    reveal_strlit("true");
    reveal_strlit("false");
    assert("true"@.len() == 4 && "false"@.len() == 5);
    lemma_blanks_go(a, "true"@, b);
    lemma_blanks_go(a, "false"@, b);
    lemma_blanks_were(json);
}

proof fn lemma_blanks_go(a: Seq<char>, t: Seq<char>, b: Seq<char>)
    requires
        blank(a),
        blank(b),
        t.len() > 0,
        !json_blank(t[0]),
        !json_blank(t.last()),
    ensures
        json_trimmed(a + t + b) == t,
    decreases a.len() + b.len(),
{
    let s = a + t + b;
    if a.len() > 0 {
        let rest = a.drop_first();
        assert(s[0] == a[0]);
        assert(s.drop_first() =~= rest + t + b);
        assert forall|i: int| 0 <= i < rest.len() implies (#[trigger] rest[i] == ' ' || rest[i]
            == '\n' || rest[i] == '\t' || rest[i] == '\r') by {
            assert(rest[i] == a[i + 1]);
        }
        lemma_blanks_go(rest, t, b);
    } else if b.len() > 0 {
        let rest = b.drop_last();
        assert(s[0] == t[0]);
        assert(s.last() == b[b.len() - 1]);
        assert(s.drop_last() =~= a + t + rest);
        assert forall|i: int| 0 <= i < rest.len() implies (#[trigger] rest[i] == ' ' || rest[i]
            == '\n' || rest[i] == '\t' || rest[i] == '\r') by {
            assert(rest[i] == b[i]);
        }
        lemma_blanks_go(a, t, rest);
    } else {
        assert(s =~= t);
    }
}

proof fn lemma_blanks_were(s: Seq<char>)
    ensures
        exists|x: Seq<char>, y: Seq<char>|
            blank(x) && blank(y) && s == #[trigger] (x + json_trimmed(s) + y),
    decreases s.len(),
{
    if s.len() > 0 && json_blank(s[0]) {
        let r = s.drop_first();
        lemma_blanks_were(r);
        let (x, y) = choose|x: Seq<char>, y: Seq<char>|
            blank(x) && blank(y) && r == #[trigger] (x + json_trimmed(r) + y);
        let z = seq![s[0]] + x;
        assert forall|i: int| 0 <= i < z.len() implies (#[trigger] z[i] == ' ' || z[i] == '\n'
            || z[i] == '\t' || z[i] == '\r') by {
            if i > 0 {
                assert(z[i] == x[i - 1]);
            }
        }
        let t = json_trimmed(r);
        assert(z + t + y =~= seq![s[0]] + (x + t + y));
        assert(s =~= seq![s[0]] + r);
        assert(blank(z) && s == z + json_trimmed(s) + y);
    } else if s.len() > 0 && json_blank(s.last()) {
        let r = s.drop_last();
        lemma_blanks_were(r);
        let (x, y) = choose|x: Seq<char>, y: Seq<char>|
            blank(x) && blank(y) && r == #[trigger] (x + json_trimmed(r) + y);
        let z = y.push(s.last());
        assert forall|i: int| 0 <= i < z.len() implies (#[trigger] z[i] == ' ' || z[i] == '\n'
            || z[i] == '\t' || z[i] == '\r') by {
            if i < y.len() {
                assert(z[i] == y[i]);
            }
        }
        let t = json_trimmed(r);
        assert(x + t + z =~= (x + t + y).push(s.last()));
        assert(s =~= r.push(s.last()));
        assert(blank(z) && s == x + json_trimmed(s) + z);
    } else {
        let e = Seq::<char>::empty();
        assert(blank(e));
        assert(s =~= e + json_trimmed(s) + e);
    }
}

/// Some page of a cache that holds any was stored before all others.
pub proof fn law_some_page_is_oldest(cache: Map<Seq<char>, Page>)
    requires
        cache.dom().finite(),
        cache.dom().len() > 0,
    ensures
        exists|url: Seq<char>| #[trigger] oldest(cache, url),
    decreases cache.dom().len(),
{
    let u = cache.dom().choose();
    let rest = cache.remove(u);
    assert(rest.dom() =~= cache.dom().remove(u));
    if rest.dom().len() == 0 {
        assert(forall|v: Seq<char>| #[trigger] cache.dom().contains(v) ==> v == u) by {
            assert forall|v: Seq<char>| #[trigger] cache.dom().contains(v) implies v == u by {
                if v != u {
                    assert(rest.dom().contains(v));
                }
            }
        }
        assert(oldest(cache, u));
    } else {
        law_some_page_is_oldest(rest);
        let o = choose|o: Seq<char>| #[trigger] oldest(rest, o);
        assert(rest.dom().contains(o));
        if cache[u].stored_at <= cache[o].stored_at {
            assert forall|v: Seq<char>| #[trigger]
                cache.dom().contains(v) implies cache[u].stored_at <= cache[v].stored_at by {
                if v != u {
                    assert(rest.dom().contains(v));
                }
            }
            assert(oldest(cache, u));
        } else {
            assert forall|v: Seq<char>| #[trigger]
                cache.dom().contains(v) implies cache[o].stored_at <= cache[v].stored_at by {
                if v != u {
                    assert(rest.dom().contains(v));
                }
            }
            assert(oldest(cache, o));
        }
    }
}

} // verus!
