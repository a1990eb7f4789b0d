//! The data that the exchange stream carries, and the decisions of the streaming loop.

use vstd::prelude::*;
use vstd::arithmetic::power2::{pow2, lemma_pow2_unfold, lemma2_to64};

verus! {

/// Best bid and ask of one symbol, prices and quantities scaled by `SCALE`.
#[derive(Debug, Clone)]
pub struct OrderTicker {
    pub update_id: u64,
    pub symbol: String,
    pub bid_price: u128,
    pub bid_qty: u128,
    pub ask_price: u128,
    pub ask_qty: u128,
}

/// One message of a combined stream: the stream's name and its ticker.
#[derive(Debug, Clone)]
pub struct StreamTicker {
    pub stream: String,
    pub order: OrderTicker,
}

// ---------------------------------------------------------------------------
// Outside code
// ---------------------------------------------------------------------------

/// `regex::Error`, carried without looking inside.
#[verifier::external_type_specification]
#[verifier::external_body]
pub struct ExRegexError(regex::Error);

/// `url::Url`, carried without looking inside.
#[verifier::external_type_specification]
#[verifier::external_body]
pub struct ExUrl(url::Url);

/// `url::ParseError`, carried without looking inside.
#[verifier::external_type_specification]
#[verifier::external_body]
pub struct ExUrlParseError(url::ParseError);

/// The pieces of `haystack` between the successive non-overlapping matches of the
/// regular expression `pattern`, as `regex::Regex::split` yields them; `None` where
/// `regex::Regex::new` refuses the pattern.
pub uninterp spec fn regex_split_pieces(pattern: Seq<char>, haystack: Seq<char>) -> Option<Seq<Seq<char>>>;

/// `str::to_lowercase`: the Unicode lowercase of a text.
pub uninterp spec fn lowercase(s: Seq<char>) -> Seq<char>;

/// What `url::Url::parse` makes of a text: the parsed URL, or `None` where it refuses it.
pub uninterp spec fn parsed_url(s: Seq<char>) -> Option<url::Url>;

/// A pattern made of ASCII letters and digits only: as a regular expression it
/// matches exactly its own text.
pub open spec fn is_plain_literal(p: Seq<char>) -> bool {
    &&& p.len() > 0
    &&& forall|i: int|
        0 <= i < p.len() ==> {
            let c = #[trigger] p[i];
            ('a' <= c && c <= 'z') || ('A' <= c && c <= 'Z') || ('0' <= c && c <= '9')
        }
}

/// The pieces joined again, `sep` between each two.
pub open spec fn joined_with(pieces: Seq<Seq<char>>, sep: Seq<char>) -> Seq<char>
    decreases pieces.len(),
{
    if pieces.len() == 0 {
        Seq::empty()
    } else if pieces.len() == 1 {
        pieces[0]
    } else {
        joined_with(pieces.drop_last(), sep) + sep + pieces.last()
    }
}

/// `sep` occurs somewhere in `text`.
pub open spec fn occurs_in(sep: Seq<char>, text: Seq<char>) -> bool {
    exists|i: int|
        0 <= i && i + sep.len() <= text.len() && #[trigger] text.subrange(i, i + sep.len())
            == sep
}

/// The first position, from `i` on, where `sep` occurs in `text`; `-1` where it occurs
/// nowhere from there.
pub open spec fn occurrence_from(text: Seq<char>, sep: Seq<char>, i: int) -> int
    decreases text.len() - i,
{
    if i < 0 || i >= text.len() || i + sep.len() > text.len() {
        -1
    } else if text.subrange(i, i + sep.len()) == sep {
        i
    } else {
        occurrence_from(text, sep, i + 1)
    }
}

/// `text` cut at each occurrence of `sep`, leftmost first, every search going on after
/// the occurrence it found; the occurrences themselves are dropped.
pub open spec fn cut_at(text: Seq<char>, sep: Seq<char>) -> Seq<Seq<char>>
    decreases text.len(),
{
    let i = occurrence_from(text, sep, 0);
    if sep.len() > 0 && 0 <= i && i + sep.len() <= text.len() {
        seq![text.take(i)] + cut_at(text.skip(i + sep.len()), sep)
    } else {
        seq![text]
    }
}

/// An ASCII character.
pub open spec fn is_ascii_char(c: char) -> bool {
    (c as int) < 128
}

/// Text of ASCII characters only.
pub open spec fn is_ascii_text(s: Seq<char>) -> bool {
    forall|i: int| 0 <= i < s.len() ==> is_ascii_char(#[trigger] s[i])
}

/// For the first `n` pairs (at most three), the lowercase of an ASCII pair is its ASCII lowercase.
pub open spec fn ascii_slots_lowered(pairs: Seq<Seq<char>>, n: int) -> bool {
    forall|k: int|
        0 <= k < 3 && k < n && is_ascii_text(#[trigger] pairs[k]) ==> lowercase(pairs[k])
            == pairs[k].map_values(|c: char| ascii_lower(c))
}

/// The ASCII lowercase of a character: `A`..`Z` become `a`..`z`, others stay.
pub open spec fn ascii_lower(c: char) -> char {
    if 'A' <= c && c <= 'Z' { ((c as int) + 32) as char } else { c }
}

/// Compiles `pattern` with `regex::Regex::new` and splits `haystack` with
/// `regex::Regex::split`. Claimed: the pieces are `regex_split_pieces(pattern, haystack)`,
/// and the call fails exactly where that is `None`. A short pattern of ASCII letters and
/// digits compiles, and matches exactly its own text, leftmost first and without
/// overlap: the pieces are the haystack cut at its occurrences (`cut_at`).
#[verifier::external_body]
fn regex_split(pattern: &str, haystack: &str) -> (r: Result<Vec<String>, regex::Error>)
    ensures
        match r {
            Ok(pieces) => regex_split_pieces(pattern@, haystack@) == Some(
                pieces@.map_values(|p: String| p@),
            ),
            Err(_) => regex_split_pieces(pattern@, haystack@) is None,
        },
        is_plain_literal(pattern@) && pattern@.len() <= 64 ==> match r {
            Ok(pieces) => pieces@.map_values(|p: String| p@) == cut_at(haystack@, pattern@),
            Err(_) => false,
        },
{
    match regex::Regex::new(pattern) {
        Ok(re) => Ok(re.split(haystack).map(|piece| piece.to_string()).collect()),
        Err(e) => Err(e),
    }
}

/// `str::to_lowercase`. Claimed: the result is `lowercase(s)`, a function of `s` alone;
/// on ASCII text it maps `A`..`Z` to `a`..`z` and keeps every other character.
#[verifier::external_body]
fn to_lowercase(s: &str) -> (r: String)
    ensures
        r@ == lowercase(s@),
        is_ascii_text(s@) ==> r@ == s@.map_values(|c: char| ascii_lower(c)),
{
    s.to_lowercase()
}

/// `url::Url::parse`. Claimed: what it returns is `parsed_url(s)`, a function of `s`
/// alone: that URL on success, and an error exactly where that is `None`.
#[verifier::external_body]
fn parse_url(s: &str) -> (r: Result<url::Url, url::ParseError>)
    ensures
        match r {
            Ok(u) => parsed_url(s@) == Some(u),
            Err(_) => parsed_url(s@) is None,
        },
{
    url::Url::parse(s)
}

// ---------------------------------------------------------------------------
// The stream's address
// ---------------------------------------------------------------------------

/// Why no stream address could be made.
#[derive(Debug, Clone, Copy, PartialEq, Eq)]
pub enum EndpointError {
    /// The text is not a URL.
    InvalidUrl,
}

/// What stands in the `k`-th placeholder: the lowercase `k`-th pair, or nothing past the third.
pub open spec fn slot_text(pairs: Seq<Seq<char>>, k: int) -> Seq<char> {
    if 0 <= k < 3 { lowercase(pairs[k]) } else { Seq::empty() }
}

/// The pieces of a template joined again, the `k`-th gap filled with `slot_text(pairs, k)`.
pub open spec fn filled_template(pieces: Seq<Seq<char>>, pairs: Seq<Seq<char>>) -> Seq<char>
    decreases pieces.len(),
{
    if pieces.len() == 0 {
        Seq::empty()
    } else if pieces.len() == 1 {
        pieces[0]
    } else {
        filled_template(pieces.drop_last(), pairs) + slot_text(pairs, pieces.len() - 2)
            + pieces.last()
    }
}

/// Joins the pieces of a template, putting the lowercase pairs, in order, into the
/// gaps between them, and nothing into gaps past the third.
pub fn fill_pair_slots(pieces: &Vec<String>, pairs: &[String; 3]) -> (url: String)
    ensures
        url@ == filled_template(
            pieces@.map_values(|p: String| p@),
            pairs@.map_values(|p: String| p@),
        ),
        ascii_slots_lowered(pairs@.map_values(|p: String| p@), pieces@.len() - 1),
{
    let ghost views = pieces@.map_values(|p: String| p@);
    let ghost pair_views = pairs@.map_values(|p: String| p@);
    let mut url = String::new();
    let mut i: usize = 0;
    while i < pieces.len()
        invariant
            i <= pieces@.len(),
            views == pieces@.map_values(|p: String| p@),
            pair_views == pairs@.map_values(|p: String| p@),
            url@ == filled_template(views.take(i as int), pair_views),
            ascii_slots_lowered(pair_views, i - 1),
        decreases pieces.len() - i,
    {
        let ghost before = url@;
        assert(views.take(i + 1).drop_last() =~= views.take(i as int));
        if i > 0 {
            if i - 1 < 3 {
                let lower = to_lowercase(pairs[i - 1].as_str());
                url.append(lower.as_str());
            }
        }
        url.append(pieces[i].as_str());
        proof {
            let t = views.take(i + 1);
            if i == 0 {
                assert(before =~= Seq::<char>::empty());
                assert(url@ =~= t[0]);
            } else {
                assert(url@ =~= filled_template(t.drop_last(), pair_views)
                    + slot_text(pair_views, t.len() - 2) + t.last());
            }
        }
        i = i + 1;
    }
    assert(views.take(pieces.len() as int) =~= views);
    url
}

proof fn lemma_occurrence_found(text: Seq<char>, sep: Seq<char>, i: int)
    ensures
        occurrence_from(text, sep, i) >= 0 ==> {
            let r = occurrence_from(text, sep, i);
            &&& i <= r
            &&& r + sep.len() <= text.len()
            &&& text.subrange(r, r + sep.len()) == sep
        },
    decreases text.len() - i,
{
    if !(i < 0 || i >= text.len() || i + sep.len() > text.len()) && text.subrange(i, i + sep.len())
        != sep {
        lemma_occurrence_found(text, sep, i + 1);
    }
}

/// A text in which the separator never occurs is a single piece.
pub proof fn lemma_cut_without_occurrence(text: Seq<char>, sep: Seq<char>)
    requires
        !occurs_in(sep, text),
    ensures
        cut_at(text, sep) == seq![text],
{
    lemma_occurrence_found(text, sep, 0);
    let i = occurrence_from(text, sep, 0);
    if i >= 0 {
        assert(text.subrange(i, i + sep.len()) == sep);
    }
}

proof fn lemma_joined_with_front(first: Seq<char>, rest: Seq<Seq<char>>, sep: Seq<char>)
    requires
        rest.len() > 0,
    ensures
        joined_with(seq![first] + rest, sep) =~= first + sep + joined_with(rest, sep),
    decreases rest.len(),
{
    let all = seq![first] + rest;
    assert(all.last() == rest.last());
    if rest.len() == 1 {
        assert(all.drop_last() =~= seq![first]);
        assert(joined_with(seq![first], sep) == first);
        assert(joined_with(rest, sep) == rest[0]);
    } else {
        assert(all.drop_last() =~= seq![first] + rest.drop_last());
        lemma_joined_with_front(first, rest.drop_last(), sep);
        assert(joined_with(rest, sep) == joined_with(rest.drop_last(), sep) + sep + rest.last());
        assert(joined_with(all, sep) == joined_with(all.drop_last(), sep) + sep + all.last());
    }
}

/// Cutting a text at a separator and joining the pieces again with it gives the text back.
pub proof fn lemma_cut_then_join(text: Seq<char>, sep: Seq<char>)
    ensures
        joined_with(cut_at(text, sep), sep) =~= text,
        cut_at(text, sep).len() > 0,
    decreases text.len(),
{
    let i = occurrence_from(text, sep, 0);
    lemma_occurrence_found(text, sep, 0);
    if sep.len() > 0 && 0 <= i && i + sep.len() <= text.len() {
        let tail = text.skip(i + sep.len());
        lemma_cut_then_join(tail, sep);
        lemma_joined_with_front(text.take(i), cut_at(tail, sep), sep);
        assert(text =~= text.take(i) + text.subrange(i, i + sep.len()) + tail);
    }
}

/// The stream address made from the address template of the settings: the template is
/// cut at every occurrence of `pair`, and the gaps are filled, in order, with the
/// lowercase pairs, and past the third with nothing. A template without `pair` comes
/// back as it is.
pub fn stream_url(env_url: &str, pairs: &[String; 3]) -> (url: String)
    ensures
        url@ == filled_template(cut_at(env_url@, "pair"@), pairs@.map_values(|p: String| p@)),
        ascii_slots_lowered(
            pairs@.map_values(|p: String| p@),
            cut_at(env_url@, "pair"@).len() - 1,
        ),
        !occurs_in("pair"@, env_url@) ==> url@ == env_url@,
{
    proof {
        reveal_strlit("pair");
        assert(is_plain_literal("pair"@));
        if !occurs_in("pair"@, env_url@) {
            lemma_cut_without_occurrence(env_url@, "pair"@);
        }
    }
    match regex_split("pair", env_url) {
        Ok(pieces) => fill_pair_slots(&pieces, pairs),
        Err(_) => {
            proof {
                assert(false);
            }
            String::new()
        },
    }
}

/// The URL of the stream, as `url::Url::parse` reads the text; `InvalidUrl` where it
/// refuses the text.
pub fn endpoint_url(binance_url: &str) -> (r: Result<url::Url, EndpointError>)
    ensures
        r == match parsed_url(binance_url@) {
            Some(u) => Ok::<url::Url, EndpointError>(u),
            None => Err(EndpointError::InvalidUrl),
        },
{
    match parse_url(binance_url) {
        Ok(url) => Ok(url),
        Err(_) => Err(EndpointError::InvalidUrl),
    }
}

// ---------------------------------------------------------------------------
// Reconnection
// ---------------------------------------------------------------------------

/// The wait before the first reconnection attempt, in seconds.
pub const INITIAL_RETRY_SECS: u64 = 1;

/// The longest wait between reconnection attempts, in seconds.
pub const MAX_RETRY_SECS: u64 = 60;

/// The wait after `k` failed waits since the last connection: doubling from one
/// second, capped at a minute.
pub open spec fn retry_secs_after(k: nat) -> int
    decreases k,
{
    if k == 0 {
        INITIAL_RETRY_SECS as int
    } else {
        let doubled = 2 * retry_secs_after((k - 1) as nat);
        if doubled < MAX_RETRY_SECS { doubled } else { MAX_RETRY_SECS as int }
    }
}

/// The wait between attempts to reach the stream.
pub struct RetryDelay {
    secs: u64,
}

impl View for RetryDelay {
    type V = int;

    closed spec fn view(&self) -> int {
        self.secs as int
    }
}

impl RetryDelay {
    #[verifier::type_invariant]
    spec fn bounded(self) -> bool {
        INITIAL_RETRY_SECS <= self.secs <= MAX_RETRY_SECS
    }

    /// The wait before the first attempt: one second.
    pub fn new() -> (d: RetryDelay)
        ensures
            d@ == INITIAL_RETRY_SECS,
    {
        RetryDelay { secs: INITIAL_RETRY_SECS }
    }

    /// The wait, in seconds; always between one second and a minute.
    pub fn secs(&self) -> (r: u64)
        ensures
            r == self@,
            INITIAL_RETRY_SECS <= r <= MAX_RETRY_SECS,
    {
        proof {
            use_type_invariant(self);
        }
        self.secs
    }

    /// A connection was made: the wait starts over at one second.
    pub fn on_connected(&mut self)
        ensures
            final(self)@ == INITIAL_RETRY_SECS,
    {
        self.secs = INITIAL_RETRY_SECS;
    }

    /// A wait ran out without a connection: the next one is twice as long, at most a minute.
    pub fn after_wait(&mut self)
        ensures
            final(self)@ == (if 2 * old(self)@ < MAX_RETRY_SECS {
                2 * old(self)@
            } else {
                MAX_RETRY_SECS as int
            }),
    {
        proof {
            use_type_invariant(&*self);
        }
        let doubled = self.secs * 2;
        self.secs = if doubled < MAX_RETRY_SECS { doubled } else { MAX_RETRY_SECS };
    }
}

/// Starting over from a connection, `k` waits without one leave the wait at
/// `min(2^k, 60)` seconds.
pub proof fn lemma_retry_secs_after(k: nat)
    ensures
        retry_secs_after(k) == (if pow2(k) < MAX_RETRY_SECS { pow2(k) as int } else {
            MAX_RETRY_SECS as int
        }),
    decreases k,
{
    if k == 0 {
        lemma2_to64();
    } else {
        lemma_retry_secs_after((k - 1) as nat);
        lemma_pow2_unfold(k);
        lemma2_to64();
    }
}

// ---------------------------------------------------------------------------
// Stream handling
// ---------------------------------------------------------------------------

/// The kind of a frame read from the stream.
#[derive(Debug, Clone, Copy, PartialEq, Eq)]
pub enum WsFrame {
    Text,
    Binary,
    Ping,
    Pong,
    Close,
    Raw,
}

/// What happened on the stream.
#[derive(Debug, Clone, Copy, PartialEq, Eq)]
pub enum StreamEvent {
    /// The bot is shutting down.
    Shutdown,
    /// A frame arrived.
    Frame(WsFrame),
    /// Reading failed.
    ReadError,
    /// The stream ended.
    Ended,
    /// Answering a ping failed.
    PongFailed,
}

/// What the streaming loop does next.
#[derive(Debug, Clone, Copy, PartialEq, Eq)]
pub enum StreamAction {
    /// Parse the text frame and hand its ticker on.
    Publish,
    /// Answer the ping with a pong that carries its payload.
    ReplyPong,
    /// Read on.
    Continue,
    /// Leave the connection.
    Stop,
}

/// The streaming loop's decision on an event: a text frame is published, a ping is
/// answered, a close, a read error, the end of the stream, a failed pong or the
/// shutdown leave the connection, and other frames are passed over.
pub fn stream_action(event: StreamEvent) -> (a: StreamAction)
    ensures
        a == (match event {
            StreamEvent::Frame(WsFrame::Text) => StreamAction::Publish,
            StreamEvent::Frame(WsFrame::Ping) => StreamAction::ReplyPong,
            StreamEvent::Frame(WsFrame::Close) => StreamAction::Stop,
            StreamEvent::Frame(_) => StreamAction::Continue,
            _ => StreamAction::Stop,
        }),
{
    match event {
        StreamEvent::Frame(frame) => match frame {
            WsFrame::Text => StreamAction::Publish,
            WsFrame::Ping => StreamAction::ReplyPong,
            WsFrame::Close => StreamAction::Stop,
            _ => StreamAction::Continue,
        },
        _ => StreamAction::Stop,
    }
}

} // verus!
