//! The decisions of the scraper: which addresses may be opened, when a page is
//! ready, and how long to wait for it.

use vstd::prelude::*;
use crate::text::{chars_of, fold_chars, folded, same_chars, spells};

verus! {

/// What was scraped of a page.
#[derive(Debug, Clone, PartialEq)]
pub struct ScrapeResult {
    pub html: String,
    /// What the site's own script for its episode list gave, where it has one.
    pub extra: Option<String>,
}

/// The host of an address.
pub enum HostName {
    Domain(Seq<char>),
    Ipv4(Seq<u8>),
    Ipv6(Seq<u16>),
}

/// The parts of an address that decide whether it may be opened.
pub struct UrlParts {
    pub scheme: Seq<char>,
    pub host: Option<HostName>,
}

/// The host of an address.
#[derive(Debug, Clone, PartialEq)]
pub enum UrlHost {
    Domain(String),
    Ipv4([u8; 4]),
    Ipv6([u16; 8]),
}

impl View for UrlHost {
    type V = HostName;

    open spec fn view(&self) -> HostName {
        match self {
            UrlHost::Domain(d) => HostName::Domain(d@),
            UrlHost::Ipv4(o) => HostName::Ipv4(o@),
            UrlHost::Ipv6(s) => HostName::Ipv6(s@),
        }
    }
}

/// The parts of an address that decide whether it may be opened.
#[derive(Debug, Clone, PartialEq)]
pub struct ParsedUrl {
    pub scheme: String,
    pub host: Option<UrlHost>,
}

impl View for ParsedUrl {
    type V = UrlParts;

    open spec fn view(&self) -> UrlParts {
        UrlParts {
            scheme: self.scheme@,
            host: match self.host {
                Some(h) => Some(h@),
                None => None,
            },
        }
    }
}

/// What `url::Url::parse` makes of a text: the scheme and the host, or nothing
/// where the text is no absolute address.
pub uninterp spec fn url_parsed(raw: Seq<char>) -> Option<UrlParts>;

/// `url::Url::parse` reads an absolute address; `scheme` and `host` give its
/// parts. The result is a function of the text.
#[verifier::external_body]
fn parse_url(raw: &str) -> (r: Option<ParsedUrl>)
    ensures
        match r {
            Some(u) => url_parsed(raw@) == Some(u@),
            None => url_parsed(raw@) is None,
        },
{
    let parsed = url::Url::parse(raw).ok()?;
    let host = match parsed.host() {
        Some(url::Host::Domain(d)) => Some(UrlHost::Domain(d.to_string())),
        Some(url::Host::Ipv4(ip)) => Some(UrlHost::Ipv4(ip.octets())),
        Some(url::Host::Ipv6(ip)) => Some(UrlHost::Ipv6(ip.segments())),
        None => None,
    };
    Some(ParsedUrl { scheme: parsed.scheme().to_string(), host })
}

/// Whether an address of four numbers is of the machine itself or of a network
/// that is not the public one: loopback, private, link-local or unspecified.
pub open spec fn internal_v4(o: Seq<u8>) -> bool {
    ||| o[0] == 127
    ||| o[0] == 10
    ||| o[0] == 172 && 16 <= o[1] <= 31
    ||| o[0] == 192 && o[1] == 168
    ||| o[0] == 169 && o[1] == 254
    ||| o[0] == 0 && o[1] == 0 && o[2] == 0 && o[3] == 0
}

/// Whether all but the last of eight numbers are zero.
pub open spec fn zero_but_last(s: Seq<u16>) -> bool {
    s[0] == 0 && s[1] == 0 && s[2] == 0 && s[3] == 0 && s[4] == 0 && s[5] == 0 && s[6] == 0
}

/// Whether an address of eight numbers is unique to a site (fc00::/7).
pub open spec fn unique_local_v6(s: Seq<u16>) -> bool {
    0xfc00 <= s[0] <= 0xfdff
}

/// Whether an address of eight numbers is unique to a link (fe80::/10).
pub open spec fn link_local_v6(s: Seq<u16>) -> bool {
    0xfe80 <= s[0] <= 0xfebf
}

/// Whether an address of eight numbers is of the machine itself or of a network
/// that is not the public one: loopback, unspecified, unique or local to a link.
pub open spec fn internal_v6(s: Seq<u16>) -> bool {
    ||| zero_but_last(s) && s[7] <= 1
    ||| unique_local_v6(s)
    ||| link_local_v6(s)
}

/// Whether an address may be opened: it is an ordinary one of the web, and its
/// host is named neither after nor by a number of an internal machine.
pub open spec fn safe(u: UrlParts) -> bool {
    &&& u.scheme == "http"@ || u.scheme == "https"@
    &&& match u.host {
        Some(HostName::Domain(d)) => folded(d) != folded("localhost"@),
        Some(HostName::Ipv4(o)) => !internal_v4(o),
        Some(HostName::Ipv6(s)) => !internal_v6(s),
        None => false,
    }
}

fn is_internal_v4(o: &[u8; 4]) -> (r: bool)
    ensures
        r == internal_v4(o@),
{
    o[0] == 127 || o[0] == 10 || (o[0] == 172 && 16 <= o[1] && o[1] <= 31) || (o[0] == 192 && o[1]
        == 168) || (o[0] == 169 && o[1] == 254) || (o[0] == 0 && o[1] == 0 && o[2] == 0 && o[3]
        == 0)
}

fn is_unique_local_v6(s: &[u16; 8]) -> (r: bool)
    ensures
        r == unique_local_v6(s@),
{
    let first: u16 = s[0];
    assert((first & 0xfe00 == 0xfc00) == (0xfc00 <= first && first <= 0xfdff)) by (bit_vector);
    (first & 0xfe00) == 0xfc00
}

fn is_link_local_v6(s: &[u16; 8]) -> (r: bool)
    ensures
        r == link_local_v6(s@),
{
    let first: u16 = s[0];
    assert((first & 0xffc0 == 0xfe80) == (0xfe80 <= first && first <= 0xfebf)) by (bit_vector);
    (first & 0xffc0) == 0xfe80
}

fn is_internal_v6(s: &[u16; 8]) -> (r: bool)
    ensures
        r == internal_v6(s@),
{
    (s[0] == 0 && s[1] == 0 && s[2] == 0 && s[3] == 0 && s[4] == 0 && s[5] == 0 && s[6] == 0 && s[7]
        <= 1) || is_unique_local_v6(s) || is_link_local_v6(s)
}

/// Whether an address with the given parts may be opened.
pub fn is_safe_target(u: &ParsedUrl) -> (r: bool)
    ensures
        r == safe(u@),
{
    let scheme = chars_of(u.scheme.as_str());
    if !spells(&scheme, "http") && !spells(&scheme, "https") {
        return false;
    }
    match &u.host {
        Some(UrlHost::Domain(d)) => {
            let name = fold_chars(&chars_of(d.as_str()));
            !same_chars(&name, &fold_chars(&chars_of("localhost")))
        },
        Some(UrlHost::Ipv4(o)) => !is_internal_v4(o),
        Some(UrlHost::Ipv6(s)) => !is_internal_v6(s),
        None => false,
    }
}

/// Whether an address may be opened. A name that only resolves to an internal
/// machine is not told apart.
pub fn is_safe_external_url(raw: &str) -> (r: bool)
    ensures
        r == (url_parsed(raw@) matches Some(u) && safe(u)),
{
    match parse_url(raw) {
        Some(u) => is_safe_target(&u),
        None => false,
    }
}

/// How long a page may take to become ready, in nanoseconds.
pub const MAX_WAIT: u64 = 40_000_000_000;

/// The first pause before a page is looked at, in nanoseconds.
pub const MIN_INTERVAL: u64 = 150_000_000;

/// The longest pause between two looks at a page, in nanoseconds.
pub const MAX_INTERVAL: u64 = 1_000_000_000;

/// How often a cover is looked at, with the first pause before every look.
pub const COVER_POLLS: u32 = 20;

/// The pause after one.
pub open spec fn longer(interval: int) -> int {
    if interval + interval / 2 < MAX_INTERVAL {
        interval + interval / 2
    } else {
        MAX_INTERVAL as int
    }
}

/// The pause before the n-th look, counted from zero.
pub open spec fn pause(n: nat) -> int
    decreases n,
{
    if n == 0 { MIN_INTERVAL as int } else { longer(pause((n - 1) as nat)) }
}

/// The pauses before the first `n` looks together.
pub open spec fn paused(n: nat) -> int
    decreases n,
{
    if n == 0 { 0 } else { paused((n - 1) as nat) + pause((n - 1) as nat) }
}

/// What to do next about a page that is loading.
#[derive(Debug, Clone, Copy, PartialEq, Eq, Structural)]
pub enum PollAction {
    /// Wait so many nanoseconds, then look at the page.
    Look(u64),
    /// The page has taken too long.
    GiveUp,
}

/// How far waiting for a page has come: the pause before the next look.
#[derive(Debug, Clone, Copy, PartialEq, Eq, Structural)]
pub struct Polling {
    pub interval: u64,
}

impl Polling {
    /// Whether the pause is between the first and the longest one.
    pub open spec fn well_formed(self) -> bool {
        MIN_INTERVAL <= self.interval <= MAX_INTERVAL
    }

    /// Waiting that begins.
    pub fn new() -> (r: Self)
        ensures
            r.well_formed(),
            r.interval == pause(0),
    {
        Polling { interval: MIN_INTERVAL }
    }

    /// What to do next, so many nanoseconds after the beginning.
    pub fn next(&self, elapsed: u64) -> (r: PollAction)
        ensures
            r == if elapsed < MAX_WAIT {
                PollAction::Look(self.interval)
            } else {
                PollAction::GiveUp
            },
    {
        if elapsed < MAX_WAIT {
            PollAction::Look(self.interval)
        } else {
            PollAction::GiveUp
        }
    }

    /// The state after a look that found the page not ready.
    pub fn not_ready(self) -> (r: Self)
        requires
            self.well_formed(),
        ensures
            r.well_formed(),
            r.interval == longer(self.interval as int),
    {
        let grown: u64 = self.interval + self.interval / 2;
        let interval: u64 = if grown < MAX_INTERVAL {
            grown
        } else {
            MAX_INTERVAL
        };
        Polling { interval }
    }
}

/// Pauses start short, never shrink and never exceed the longest one.
pub proof fn law_pauses_bounded(n: nat)
    ensures
        MIN_INTERVAL <= pause(n) <= MAX_INTERVAL,
        pause(n) <= pause(n + 1),
    decreases n,
{
    if n > 0 {
        law_pauses_bounded((n - 1) as nat);
    }
    assert(pause(n + 1) == longer(pause(n)));
}

/// Waiting ends: before the time is up there are at most 267 looks, since every
/// look costs its pause.
pub proof fn law_waiting_ends(n: nat)
    ensures
        paused(n) >= n * MIN_INTERVAL,
        paused(n) < MAX_WAIT ==> n < 267,
    decreases n,
{
    if n > 0 {
        law_waiting_ends((n - 1) as nat);
        law_pauses_bounded((n - 1) as nat);
    }
}

/// What `serde_json::from_str` reads as a text.
pub uninterp spec fn json_text(json: Seq<char>) -> Option<Seq<char>>;

/// Whether a character may stand around a JSON value.
pub open spec fn json_blank(c: char) -> bool {
    c == ' ' || c == '\n' || c == '\t' || c == '\r'
}

/// A JSON text without the blanks around it.
pub open spec fn json_trimmed(json: Seq<char>) -> Seq<char>
    decreases json.len(),
{
    if json.len() > 0 && json_blank(json[0]) {
        json_trimmed(json.drop_first())
    } else if json.len() > 0 && json_blank(json.last()) {
        json_trimmed(json.drop_last())
    } else {
        json
    }
}

/// The truth value that a JSON text is.
pub open spec fn json_bool(json: Seq<char>) -> Option<bool> {
    if json_trimmed(json) == "true"@ {
        Some(true)
    } else if json_trimmed(json) == "false"@ {
        Some(false)
    } else {
        None
    }
}

/// What `serde_json::from_str` reads as an object's truth value of a name.
pub uninterp spec fn json_flag(json: Seq<char>, name: Seq<char>) -> Option<bool>;

/// `serde_json::from_str` reads a JSON text as a string, or fails where it is
/// none. The result is a function of the text.
#[verifier::external_body]
fn decode_text(json: &str) -> (r: Option<String>)
    ensures
        match r {
            Some(t) => json_text(json@) == Some(t@),
            None => json_text(json@) is None,
        },
{
    serde_json::from_str::<String>(json).ok()
}

/// `serde_json::from_str` reads a JSON text as a truth value: `true` or `false`
/// with nothing but spaces, tabs and line ends around it. It fails on every
/// other text.
#[verifier::external_body]
fn decode_bool(json: &str) -> (r: Option<bool>)
    ensures
        r == json_bool(json@),
{
    serde_json::from_str::<bool>(json).ok()
}

/// `serde_json::from_str` reads a JSON text as a value; `get` and `as_bool` give
/// the truth value that it holds under a name, if it is an object with one. The
/// result is a function of the two texts.
#[verifier::external_body]
fn decode_flag(json: &str, name: &str) -> (r: Option<bool>)
    ensures
        r == json_flag(json@, name@),
{
    serde_json::from_str::<serde_json::Value>(json).ok()?.get(name)?.as_bool()
}

/// Whether a truth value is there and holds.
pub open spec fn holds(flag: Option<bool>) -> bool {
    flag == Some(true)
}

/// Whether what a page said of itself means that it is ready. The page answers
/// with a text that holds an object.
pub fn is_page_ready(answer: &str) -> (r: bool)
    ensures
        r == holds(
            json_flag(
                match json_text(answer@) {
                    Some(t) => t,
                    None => ""@,
                },
                "ready"@,
            ),
        ),
{
    let inner = match decode_text(answer) {
        Some(t) => t,
        None => "".to_owned(),
    };
    match decode_flag(inner.as_str(), "ready") {
        Some(b) => b,
        None => false,
    }
}

/// Whether what a page said of its image means that it is loaded.
pub fn is_image_ready(answer: &str) -> (r: bool)
    ensures
        r == holds(json_bool(answer@)),
{
    match decode_bool(answer) {
        Some(b) => b,
        None => false,
    }
}

/// The text that a page answered with.
pub fn answered_text(answer: &str) -> (r: Option<String>)
    ensures
        match r {
            Some(t) => json_text(answer@) == Some(t@),
            None => json_text(answer@) is None,
        },
{
    decode_text(answer)
}

/// What a script in a page gave: its answer, or what went wrong.
#[derive(Debug, Clone, PartialEq)]
pub enum ScriptOutcome {
    Answer(String),
    Failed(String),
}

/// Why a page could not be scraped.
#[derive(Debug, Clone, PartialEq)]
pub enum ScrapeFailure {
    /// The page did not become ready in time.
    NotReady,
    /// A script failed, with what went wrong.
    Script(String),
    /// The page's text could not be decoded.
    BadHtml,
    /// The answer of the site's own script could not be decoded.
    BadEpisodes,
}

/// How far scraping a page has come.
#[derive(Debug, Clone, PartialEq)]
pub enum ScrapeStage {
    /// The page is looked at until it is ready.
    Verifying(Polling),
    /// The page's text is asked for.
    Extracting,
    /// The site's own script for its episode list runs.
    Episodes(String),
    /// Nothing is left to do.
    Finished,
}

/// What to do next to scrape a page.
#[derive(Debug, Clone, PartialEq)]
pub enum ScrapeAction {
    /// Wait so many nanoseconds, then ask the page whether it is ready.
    Probe(u64),
    /// Ask for the page's text.
    ReadHtml,
    /// Run the site's own script.
    RunScript,
    /// The page was scraped.
    Done(ScrapeResult),
    /// The page could not be scraped.
    Fail(ScrapeFailure),
}

/// What the answer to whether a page is ready says.
pub open spec fn said_ready(outcome: ScriptOutcome) -> bool {
    match outcome {
        ScriptOutcome::Answer(a) => holds(
            json_flag(
                match json_text(a@) {
                    Some(t) => t,
                    None => ""@,
                },
                "ready"@,
            ),
        ),
        ScriptOutcome::Failed(_) => false,
    }
}

/// Whether a step of scraping follows from the outcome of the last action, so
/// many nanoseconds after the beginning. `scripted` tells whether the site has a
/// script of its own.
pub open spec fn scrape_follows(
    stage: ScrapeStage,
    outcome: ScriptOutcome,
    elapsed: u64,
    scripted: bool,
    next: ScrapeStage,
    action: ScrapeAction,
) -> bool {
    match stage {
        ScrapeStage::Verifying(p) => if said_ready(outcome) {
            next == ScrapeStage::Extracting && action == ScrapeAction::ReadHtml
        } else if elapsed < MAX_WAIT {
            &&& next matches ScrapeStage::Verifying(q) && q.interval == longer(p.interval as int)
            &&& action == ScrapeAction::Probe(longer(p.interval as int) as u64)
        } else {
            next == ScrapeStage::Finished && action == ScrapeAction::Fail(ScrapeFailure::NotReady)
        },
        ScrapeStage::Extracting => match outcome {
            ScriptOutcome::Answer(a) => match json_text(a@) {
                Some(html) => if scripted {
                    &&& next matches ScrapeStage::Episodes(h) && h@ == html
                    &&& action == ScrapeAction::RunScript
                } else {
                    &&& next == ScrapeStage::Finished
                    &&& action matches ScrapeAction::Done(r) && r.html@ == html && r.extra is None
                },
                None => next == ScrapeStage::Finished && action == ScrapeAction::Fail(
                    ScrapeFailure::BadHtml,
                ),
            },
            ScriptOutcome::Failed(why) => next == ScrapeStage::Finished && action
                == ScrapeAction::Fail(ScrapeFailure::Script(why)),
        },
        ScrapeStage::Episodes(html) => match outcome {
            ScriptOutcome::Answer(a) => match json_text(a@) {
                Some(text) => {
                    &&& next == ScrapeStage::Finished
                    &&& action matches ScrapeAction::Done(r) && r.html == html && (
                    r.extra matches Some(x) && x@ == text)
                },
                None => next == ScrapeStage::Finished && action == ScrapeAction::Fail(
                    ScrapeFailure::BadEpisodes,
                ),
            },
            ScriptOutcome::Failed(why) => next == ScrapeStage::Finished && action
                == ScrapeAction::Fail(ScrapeFailure::Script(why)),
        },
        ScrapeStage::Finished => next == ScrapeStage::Finished && action == ScrapeAction::Fail(
            ScrapeFailure::NotReady,
        ),
    }
}

impl ScrapeStage {
    /// Whether the stage is one that scraping can be in.
    pub open spec fn well_formed(self) -> bool {
        self matches ScrapeStage::Verifying(p) ==> p.well_formed()
    }
}

/// The first step of scraping a page.
pub fn begin_scrape() -> (r: (ScrapeStage, ScrapeAction))
    ensures
        r.0.well_formed(),
        r.0 matches ScrapeStage::Verifying(p) && p.interval == MIN_INTERVAL,
        r.1 == ScrapeAction::Probe(MIN_INTERVAL),
{
    let p = Polling::new();
    (ScrapeStage::Verifying(p), ScrapeAction::Probe(p.interval))
}

/// The step of scraping that follows from the outcome of the last action.
pub fn continue_scrape(
    stage: ScrapeStage,
    outcome: ScriptOutcome,
    elapsed: u64,
    scripted: bool,
) -> (r: (ScrapeStage, ScrapeAction))
    requires
        stage.well_formed(),
    ensures
        r.0.well_formed(),
        scrape_follows(stage, outcome, elapsed, scripted, r.0, r.1),
{
    match stage {
        ScrapeStage::Verifying(p) => {
            let ready: bool = match &outcome {
                ScriptOutcome::Answer(a) => is_page_ready(a.as_str()),
                ScriptOutcome::Failed(_) => false,
            };
            if ready {
                return (ScrapeStage::Extracting, ScrapeAction::ReadHtml);
            }
            let q = p.not_ready();
            match q.next(elapsed) {
                PollAction::Look(n) => (ScrapeStage::Verifying(q), ScrapeAction::Probe(n)),
                PollAction::GiveUp => (
                    ScrapeStage::Finished,
                    ScrapeAction::Fail(ScrapeFailure::NotReady),
                ),
            }
        },
        ScrapeStage::Extracting => match outcome {
            ScriptOutcome::Answer(a) => match answered_text(a.as_str()) {
                Some(html) => if scripted {
                    (ScrapeStage::Episodes(html), ScrapeAction::RunScript)
                } else {
                    (
                        ScrapeStage::Finished,
                        ScrapeAction::Done(ScrapeResult { html, extra: None }),
                    )
                },
                None => (ScrapeStage::Finished, ScrapeAction::Fail(ScrapeFailure::BadHtml)),
            },
            ScriptOutcome::Failed(why) => (
                ScrapeStage::Finished,
                ScrapeAction::Fail(ScrapeFailure::Script(why)),
            ),
        },
        ScrapeStage::Episodes(html) => match outcome {
            ScriptOutcome::Answer(a) => match answered_text(a.as_str()) {
                Some(text) => (
                    ScrapeStage::Finished,
                    ScrapeAction::Done(ScrapeResult { html, extra: Some(text) }),
                ),
                None => (ScrapeStage::Finished, ScrapeAction::Fail(ScrapeFailure::BadEpisodes)),
            },
            ScriptOutcome::Failed(why) => (
                ScrapeStage::Finished,
                ScrapeAction::Fail(ScrapeFailure::Script(why)),
            ),
        },
        ScrapeStage::Finished => (
            ScrapeStage::Finished,
            ScrapeAction::Fail(ScrapeFailure::NotReady),
        ),
    }
}

/// A page is read only once it has said that it is ready, and then at once.
pub proof fn law_read_only_when_ready(
    stage: ScrapeStage,
    outcome: ScriptOutcome,
    elapsed: u64,
    scripted: bool,
    next: ScrapeStage,
    action: ScrapeAction,
)
    requires
        stage is Verifying,
        scrape_follows(stage, outcome, elapsed, scripted, next, action),
    ensures
        action == ScrapeAction::ReadHtml <==> said_ready(outcome),
        next == ScrapeStage::Extracting <==> said_ready(outcome),
{
}

/// Once the time is up, no page is looked at again.
pub proof fn law_gives_up_in_time(
    stage: ScrapeStage,
    outcome: ScriptOutcome,
    elapsed: u64,
    scripted: bool,
    next: ScrapeStage,
    action: ScrapeAction,
)
    requires
        elapsed >= MAX_WAIT,
        scrape_follows(stage, outcome, elapsed, scripted, next, action),
    ensures
        !(action is Probe),
{
}

/// Why a cover could not be fetched.
#[derive(Debug, Clone, PartialEq)]
pub enum CoverFailure {
    /// The image was not loaded in time.
    NotLoaded,
    /// A script failed, with what went wrong.
    Script(String),
    /// The image could not be decoded.
    BadImage,
}

/// How far fetching a cover has come.
#[derive(Debug, Clone, Copy, PartialEq, Eq, Structural)]
pub enum CoverStage {
    /// The image has been looked at so many times.
    Loading(u32),
    /// The image is read.
    Reading,
    /// Nothing is left to do.
    Finished,
}

/// What to do next to fetch a cover.
#[derive(Debug, Clone, PartialEq)]
pub enum CoverAction {
    /// Wait so many nanoseconds, then ask the page whether the image is loaded.
    Probe(u64),
    /// Read the image.
    ReadImage,
    /// The cover was fetched.
    Done(String),
    /// The cover could not be fetched.
    Fail(CoverFailure),
}

/// What the answer to whether an image is loaded says.
pub open spec fn said_loaded(outcome: ScriptOutcome) -> bool {
    outcome matches ScriptOutcome::Answer(a) && holds(json_bool(a@))
}

/// Whether a step of fetching a cover follows from the outcome of the last
/// action.
pub open spec fn cover_follows(
    stage: CoverStage,
    outcome: ScriptOutcome,
    next: CoverStage,
    action: CoverAction,
) -> bool {
    match stage {
        CoverStage::Loading(polls) => if said_loaded(outcome) {
            next == CoverStage::Reading && action == CoverAction::ReadImage
        } else if polls + 1 < COVER_POLLS {
            next == CoverStage::Loading((polls + 1) as u32) && action == CoverAction::Probe(
                MIN_INTERVAL,
            )
        } else {
            next == CoverStage::Finished && action == CoverAction::Fail(CoverFailure::NotLoaded)
        },
        CoverStage::Reading => next == CoverStage::Finished && match outcome {
            ScriptOutcome::Answer(a) => match json_text(a@) {
                Some(image) => action matches CoverAction::Done(i) && i@ == image,
                None => action == CoverAction::Fail(CoverFailure::BadImage),
            },
            ScriptOutcome::Failed(why) => action == CoverAction::Fail(CoverFailure::Script(why)),
        },
        CoverStage::Finished => next == CoverStage::Finished && action == CoverAction::Fail(
            CoverFailure::NotLoaded,
        ),
    }
}

/// The first step of fetching a cover.
pub fn begin_cover() -> (r: (CoverStage, CoverAction))
    ensures
        r.0 == CoverStage::Loading(0),
        r.1 == CoverAction::Probe(MIN_INTERVAL),
{
    (CoverStage::Loading(0), CoverAction::Probe(MIN_INTERVAL))
}

/// The step of fetching a cover that follows from the outcome of the last action.
pub fn continue_cover(stage: CoverStage, outcome: ScriptOutcome) -> (r: (CoverStage, CoverAction))
    ensures
        cover_follows(stage, outcome, r.0, r.1),
{
    match stage {
        CoverStage::Loading(polls) => {
            let loaded: bool = match &outcome {
                ScriptOutcome::Answer(a) => is_image_ready(a.as_str()),
                ScriptOutcome::Failed(_) => false,
            };
            if loaded {
                (CoverStage::Reading, CoverAction::ReadImage)
            } else if polls < COVER_POLLS - 1 {
                (CoverStage::Loading(polls + 1), CoverAction::Probe(MIN_INTERVAL))
            } else {
                (CoverStage::Finished, CoverAction::Fail(CoverFailure::NotLoaded))
            }
        },
        CoverStage::Reading => match outcome {
            ScriptOutcome::Answer(a) => match answered_text(a.as_str()) {
                Some(image) => (CoverStage::Finished, CoverAction::Done(image)),
                None => (CoverStage::Finished, CoverAction::Fail(CoverFailure::BadImage)),
            },
            ScriptOutcome::Failed(why) => (
                CoverStage::Finished,
                CoverAction::Fail(CoverFailure::Script(why)),
            ),
        },
        CoverStage::Finished => (
            CoverStage::Finished,
            CoverAction::Fail(CoverFailure::NotLoaded),
        ),
    }
}

} // verus!
