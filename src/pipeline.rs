//! The decisions of one polling tick: whether a clipboard text becomes a
//! history entry, and whether a clipboard image is announced as a screenshot.
//! Reading the clipboard, sleeping, saving and notifying are the caller's.
use vstd::prelude::*;
use vstd::string::*;
use crate::classify::{
    auto_tags, auto_tags_for_text_and_url, capture_type_of, code_type, detect_capture_type, domain_of, is_url,
    link_type, owned, parses_as_url, same_text, views,
};
use crate::history::{normalized_history, suppressed, ClipboardHistory, ClipboardHistoryEntry};
use crate::rules::{action_fired, apply_rules, fired_rules, ignore_action, opt_view, rule_tags, Rule};
use crate::screenshot::{is_probable_screenshot, is_snip_title, probable_screenshot, SnipTracker, RECENT_SNIP_MILLIS, SNIP_LOOKBACK_MILLIS};
use crate::text::{compute_text_hash, lower_of, sha256_hex, sha256_hex_of, text_hash, trim, trim_of};

verus! {

/// What the caller announces when the clipboard text changes.
pub struct ClipboardContent {
    pub text: String,
    pub from_app: bool,
}

/// What the caller announces for a probable screenshot.
pub struct ClipboardImagePayload {
    pub data_url: String,
    pub width: u32,
    pub height: u32,
}

/// Settings that govern which captures are kept.
pub struct CaptureConfig {
    /// Shorter texts, in characters after trimming, are dropped unless they are
    /// code or a link.
    pub min_text_length: usize,
    /// A repeat of a capture within this many minutes replaces it.
    pub dedup_window_minutes: u64,
    pub persistence_enabled: bool,
    pub monitoring_enabled: bool,
    pub rules: Vec<Rule>,
}

/// The PNG encoding of an RGBA image, as `png::Encoder` writes it.
pub uninterp spec fn png_of(width: u32, height: u32, rgba: Seq<u8>) -> Seq<u8>;

/// The standard, padded base64 text of some bytes.
pub uninterp spec fn base64_of(b: Seq<u8>) -> Seq<char>;

/// Relies on `png::Encoder` (8-bit RGBA, header then image data): the bytes
/// written; empty when the header cannot be written. The encoder multiplies
/// the row length by the height, so the pixels must be exactly four bytes
/// per pixel.
#[verifier::external_body]
fn encode_png(width: u32, height: u32, rgba: &[u8]) -> (r: Vec<u8>)
    requires
        rgba@.len() == 4 * width * height,
    ensures
        r@ == png_of(width, height, rgba@),
{
    let mut out: Vec<u8> = Vec::new();
    {
        let mut encoder = png::Encoder::new(&mut out, width, height);
        encoder.set_color(png::ColorType::Rgba);
        encoder.set_depth(png::BitDepth::Eight);
        if let Ok(mut writer) = encoder.write_header() {
            let _ = writer.write_image_data(rgba);
        }
    }
    out
}

/// Relies on `base64::Engine::encode` with the standard engine.
#[verifier::external_body]
fn encode_base64(b: &[u8]) -> (r: String)
    ensures
        r@ == base64_of(b@),
{
    base64::Engine::encode(&base64::engine::general_purpose::STANDARD, b)
}

/// Decimal digits of `n`.
pub open spec fn digits_of(n: nat) -> Seq<char>
    decreases n,
{
    let d = seq!['0', '1', '2', '3', '4', '5', '6', '7', '8', '9'][(n % 10) as int];
    if n < 10 {
        seq![d]
    } else {
        digits_of(n / 10).push(d)
    }
}

/// Decimal text of `n`, with a minus sign when negative.
pub open spec fn decimal_of(n: int) -> Seq<char> {
    if n < 0 {
        seq!['-'] + digits_of((-n) as nat)
    } else {
        digits_of(n as nat)
    }
}

/// Relies on `i64::to_string`: the decimal text of `n`.
#[verifier::external_body]
fn decimal(n: i64) -> (r: String)
    ensures
        r@ == decimal_of(n as int),
{
    n.to_string()
}

/// The id of a capture taken at `now`.
pub open spec fn capture_id(now: i64) -> Seq<char> {
    seq!['c', 'l', 'i', 'p', '_'] + decimal_of(now as int)
}

/// The id of a capture taken at `now`: `clip_` and the milliseconds.
pub fn capture_id_for(now: i64) -> (r: String)
    ensures
        r@ == capture_id(now),
{
    proof {
        reveal_strlit("clip_");
    }
    let mut id = owned("clip_");
    let n = decimal(now);
    id.append(n.as_str());
    assert(id@ =~= capture_id(now));
    id
}

/// A text not seen on the previous tick.
pub open spec fn is_new_text(last: Seq<char>, text: Seq<char>) -> bool {
    text.len() > 0 && text != last
}

/// The last observed text once `text` has been read.
pub open spec fn text_after(last: Seq<char>, text: Seq<char>) -> Seq<char> {
    if is_new_text(last, text) {
        text
    } else {
        last
    }
}

/// The source URL recorded for a trimmed capture: itself, when it parses.
pub open spec fn source_url_of(t: Seq<char>) -> Option<Seq<char>> {
    if parses_as_url(t) {
        Option::Some(t)
    } else {
        Option::None
    }
}

pub open spec fn opt_string_view(o: Option<String>) -> Option<Seq<char>> {
    match o {
        Option::Some(s) => Option::Some(s@),
        Option::None => Option::None,
    }
}

/// A trimmed capture long enough to keep, or code, or a link.
pub open spec fn long_enough(t: Seq<char>, min_text_length: nat) -> bool {
    t.len() >= min_text_length || capture_type_of(t) == code_type() || capture_type_of(t) == link_type()
}

/// Which rules fire on a trimmed capture from `app`.
pub open spec fn fired_on(rules: Seq<Rule>, t: Seq<char>, app: Option<Seq<char>>) -> Seq<bool> {
    fired_rules(rules, t, source_url_of(t), app, capture_type_of(t))
}

/// The tags of `s` without repeats, each kept at its first place.
pub open spec fn distinct_tags(s: Seq<Seq<char>>) -> Seq<Seq<char>>
    decreases s.len(),
{
    if s.len() == 0 {
        s
    } else {
        let p = distinct_tags(s.drop_last());
        if p.contains(s.last()) {
            p
        } else {
            p.push(s.last())
        }
    }
}

/// No tag occurs twice in `s`.
pub open spec fn no_repeats(s: Seq<Seq<char>>) -> bool {
    forall|i: int, j: int| 0 <= i < j < s.len() ==> s[i] != s[j]
}

/// The tags of a stored capture: the union of those of its rules and those
/// of its link, in that order, each once.
pub open spec fn capture_tags(rules: Seq<Rule>, t: Seq<char>, app: Option<Seq<char>>) -> Seq<Seq<char>> {
    distinct_tags(rule_tags(rules, fired_on(rules, t, app)) + if parses_as_url(t) {
        auto_tags(domain_of(t))
    } else {
        Seq::empty()
    })
}

/// The merged tags hold each tag once, and every tag of the input.
pub proof fn lemma_distinct_tags_is_a_set(s: Seq<Seq<char>>)
    ensures
        no_repeats(distinct_tags(s)),
        forall|t: Seq<char>| s.contains(t) <==> distinct_tags(s).contains(t),
    decreases s.len(),
{
    if s.len() > 0 {
        let d = s.drop_last();
        lemma_distinct_tags_is_a_set(d);
        let p = distinct_tags(d);
        let ds = distinct_tags(s);
        assert(s.drop_last() == d);
        assert forall|t: Seq<char>| s.contains(t) <==> #[trigger] ds.contains(t) by {
            if p.contains(t) {
                let k = choose|k: int| 0 <= k < p.len() && p[k] == t;
                assert(ds[k] == t);
            }
            if s.contains(t) {
                let i = choose|i: int| 0 <= i < s.len() && s[i] == t;
                if i < d.len() {
                    assert(d[i] == t);
                    assert(d.contains(t));
                } else if !p.contains(t) {
                    assert(ds[p.len() as int] == t);
                }
            }
            if ds.contains(t) {
                let i = choose|i: int| 0 <= i < ds.len() && ds[i] == t;
                if i < p.len() {
                    assert(p[i] == t);
                    assert(d.contains(t));
                    let j = choose|j: int| 0 <= j < d.len() && d[j] == t;
                    assert(s[j] == d[j]);
                } else {
                    assert(s[s.len() - 1] == t);
                }
            }
        }
    }
}

/// `tags` then `extra`, each tag once, at its first place.
pub fn merge_tags(tags: Vec<String>, extra: Vec<String>) -> (r: Vec<String>)
    ensures
        views(r@) == distinct_tags(views(tags@) + views(extra@)),
{
    let mut all = tags;
    let mut more = extra;
    let ghost joined = views(all@) + views(more@);
    all.append(&mut more);
    assert(views(all@) =~= joined);
    let mut out: Vec<String> = Vec::new();
    let mut i: usize = 0;
    assert(views(all@).subrange(0, 0) =~= Seq::<Seq<char>>::empty());
    while i < all.len()
        invariant
            i <= all.len(),
            views(out@) == distinct_tags(views(all@).subrange(0, i as int)),
        decreases all.len() - i,
    {
        let ghost pre = views(all@).subrange(0, i as int);
        let ghost next = views(all@).subrange(0, i as int + 1);
        assert(next.drop_last() =~= pre);
        assert(next.last() == all@[i as int]@);
        let mut j: usize = 0;
        let mut seen = false;
        while j < out.len()
            invariant
                i < all.len(),
                j <= out.len(),
                seen == exists|k: int| 0 <= k < j && (#[trigger] out@[k])@ == all@[i as int]@,
            decreases out.len() - j,
        {
            if out[j] == all[i] {
                seen = true;
            }
            j = j + 1;
        }
        proof {
            if seen {
                let k = choose|k: int| 0 <= k < j && (#[trigger] out@[k])@ == all@[i as int]@;
                assert(views(out@)[k] == all@[i as int]@);
                assert(views(out@).contains(all@[i as int]@));
            } else {
                assert forall|k: int| 0 <= k < views(out@).len() implies views(out@)[k] != all@[i as int]@ by {
                    assert(views(out@)[k] == out@[k]@);
                }
                assert(!views(out@).contains(all@[i as int]@));
            }
        }
        if !seen {
            let ghost o = views(out@);
            out.push(all[i].clone());
            assert(views(out@) =~= o.push(all@[i as int]@));
        }
        i = i + 1;
    }
    assert(views(all@).subrange(0, i as int) =~= views(all@));
    out
}

/// `e` is the entry made of trimmed text `t` captured at `now`.
pub open spec fn is_capture_of(
    e: ClipboardHistoryEntry,
    t: Seq<char>,
    now: i64,
    window_title: Option<String>,
    source_app: Option<String>,
    rules: Seq<Rule>,
) -> bool {
    &&& e.id@ == capture_id(now)
    &&& e.text@ == t
    &&& !e.pinned
    &&& e.timestamp == now
    &&& e.source_app == source_app
    &&& e.window_title == window_title
    &&& opt_string_view(e.source_url) == source_url_of(t)
    &&& e.capture_type@ == capture_type_of(t)
    &&& views(e.tags@) == capture_tags(rules, t, opt_string_view(source_app))
    &&& e.content_hash matches Some(h) && h@ == text_hash(t)
}

/// What became of a clipboard text.
#[derive(Clone, Copy, Debug, PartialEq, Eq, Structural)]
pub enum TextOutcome {
    /// Empty, or the same as on the previous tick: nothing happens.
    Unchanged,
    /// The text this application itself put on the clipboard.
    FromApp,
    /// Too short, and neither code nor a link.
    TooShort,
    /// A rule asked to ignore it.
    Ignored,
    /// Recorded in the history.
    Stored,
}

impl TextOutcome {
    /// The announcement for this outcome: none when unchanged, and none for
    /// a capture that a rule ignores.
    pub fn notification(&self, text: &str) -> (r: Option<ClipboardContent>)
        ensures
            (*self == TextOutcome::Unchanged || *self == TextOutcome::Ignored) <==> r is None,
            r matches Some(c) ==> c.text@ == text@ && c.from_app == (*self == TextOutcome::FromApp),
    {
        match self {
            TextOutcome::Unchanged => Option::None,
            TextOutcome::Ignored => Option::None,
            _ => Option::Some(ClipboardContent { text: owned(text), from_app: *self == TextOutcome::FromApp }),
        }
    }

    /// Whether the history is to be saved after this outcome: after any new
    /// text but an ignored one, when saving is on.
    pub fn persists(&self, config: &CaptureConfig) -> (r: bool)
        ensures
            r == (*self != TextOutcome::Unchanged && *self != TextOutcome::Ignored && config.persistence_enabled),
    {
        !(*self == TextOutcome::Unchanged) && !(*self == TextOutcome::Ignored) && config.persistence_enabled
    }
}

/// What the poller remembers between ticks.
pub struct CaptureState {
    last_content: String,
    last_internal_copy: String,
    last_image_hash: String,
    snip: SnipTracker,
}

impl CaptureState {
    pub closed spec fn last_text(&self) -> Seq<char> {
        self.last_content@
    }

    pub closed spec fn own_text(&self) -> Seq<char> {
        self.last_internal_copy@
    }

    pub closed spec fn last_image(&self) -> Seq<char> {
        self.last_image_hash@
    }

    pub closed spec fn snip_seen_at(&self) -> int {
        self.snip.last_seen_at()
    }

    /// The state at start-up, at `now` on the monotonic clock.
    pub fn new(now: i64) -> (r: CaptureState)
        requires
            now >= i64::MIN + SNIP_LOOKBACK_MILLIS,
        ensures
            r.last_text().len() == 0,
            r.own_text().len() == 0,
            r.last_image().len() == 0,
            r.snip_seen_at() == now - SNIP_LOOKBACK_MILLIS,
    {
        CaptureState {
            last_content: String::new(),
            last_internal_copy: String::new(),
            last_image_hash: String::new(),
            snip: SnipTracker::new(now),
        }
    }

    /// Records a text that this application put on the clipboard.
    pub fn mark_internal_copy(&mut self, text: &str)
        ensures
            final(self).own_text() == text@,
            final(self).last_text() == old(self).last_text(),
            final(self).last_image() == old(self).last_image(),
            final(self).snip_seen_at() == old(self).snip_seen_at(),
    {
        self.last_internal_copy = owned(text);
    }

    /// Samples the foreground window title at `now` (monotonic clock).
    pub fn observe_window(&mut self, window_title: Option<&str>, now: i64)
        ensures
            final(self).last_text() == old(self).last_text(),
            final(self).own_text() == old(self).own_text(),
            final(self).last_image() == old(self).last_image(),
            (window_title matches Some(t) && is_snip_title(lower_of(t@)))
                ==> final(self).snip_seen_at() == now,
            !(window_title matches Some(t) && is_snip_title(lower_of(t@)))
                ==> final(self).snip_seen_at() == old(self).snip_seen_at(),
    {
        self.snip.observe_title(window_title, now);
    }

    /// Handles the clipboard text read on a tick at `now` (milliseconds since
    /// the epoch), with the foreground window's title and application.
    pub fn on_text(
        &mut self,
        history: &mut ClipboardHistory,
        config: &CaptureConfig,
        text: &str,
        now: i64,
        window_title: Option<String>,
        source_app: Option<String>,
    ) -> (r: TextOutcome)
        requires
            old(history).wf(),
        ensures
            final(history).wf(),
            final(history).capacity() == old(history).capacity(),
            final(self).last_text() == text_after(old(self).last_text(), text@),
            final(self).own_text() == old(self).own_text(),
            final(self).last_image() == old(self).last_image(),
            final(self).snip_seen_at() == old(self).snip_seen_at(),
            r != TextOutcome::Stored ==> final(history)@ == old(history)@,
            !is_new_text(old(self).last_text(), text@) ==> r == TextOutcome::Unchanged,
            is_new_text(old(self).last_text(), text@) ==> ({
                let t = trim_of(text@);
                let app = opt_string_view(source_app);
                if text@ == old(self).own_text() {
                    r == TextOutcome::FromApp
                } else if !long_enough(t, config.min_text_length as nat) {
                    r == TextOutcome::TooShort
                } else if action_fired(config.rules@, fired_on(config.rules@, t, app), ignore_action()) {
                    r == TextOutcome::Ignored
                } else {
                    &&& r == TextOutcome::Stored
                    &&& exists|e: ClipboardHistoryEntry|
                        is_capture_of(e, t, now, window_title, source_app, config.rules@)
                        && final(history)@ == normalized_history(
                            seq![e] + suppressed(old(history)@, e, now as int, config.dedup_window_minutes as nat),
                            old(history).capacity(),
                        )
                }
            }),
    {
        if text.is_empty() || same_text(text, self.last_content.as_str()) {
            return TextOutcome::Unchanged;
        }
        self.last_content = owned(text);
        if same_text(text, self.last_internal_copy.as_str()) {
            return TextOutcome::FromApp;
        }
        let trimmed = trim(text);
        let capture_type = detect_capture_type(trimmed.as_str());
        proof {
            reveal_strlit("code");
            reveal_strlit("link");
        }
        assert("code"@ =~= code_type());
        assert("link"@ =~= link_type());
        let special = same_text(capture_type.as_str(), "code")
            || same_text(capture_type.as_str(), "link");
        let n = trimmed.as_str().unicode_len();
        if n < config.min_text_length && !special {
            return TextOutcome::TooShort;
        }
        let source_url: Option<String> = if is_url(trimmed.as_str()) {
            Option::Some(owned(trimmed.as_str()))
        } else {
            Option::None
        };
        let url_ref: Option<&str> = match &source_url {
            Option::Some(u) => Option::Some(u.as_str()),
            Option::None => Option::None,
        };
        let app_ref: Option<&str> = match &source_app {
            Option::Some(a) => Option::Some(a.as_str()),
            Option::None => Option::None,
        };
        let (tags, ignore, _merge) = apply_rules(trimmed.as_str(), url_ref, app_ref, capture_type.as_str(), &config.rules);
        assert(fired_rules(config.rules@, trimmed@, opt_view(url_ref), opt_view(app_ref), capture_type@)
            == fired_on(config.rules@, trimmed@, opt_string_view(source_app)));
        if ignore {
            return TextOutcome::Ignored;
        }
        let hash = compute_text_hash(trimmed.as_str());
        let extra: Vec<String> = match &source_url {
            Option::Some(u) => auto_tags_for_text_and_url(u.as_str()),
            Option::None => Vec::new(),
        };
        assert(views(extra@) == (if parses_as_url(trimmed@) { auto_tags(domain_of(trimmed@)) } else { Seq::empty() }))
            by {
            if !parses_as_url(trimmed@) {
                assert(views(extra@) =~= Seq::<Seq<char>>::empty());
            }
        }
        let tags = merge_tags(tags, extra);
        let entry = ClipboardHistoryEntry {
            id: capture_id_for(now),
            text: trimmed,
            pinned: false,
            timestamp: now,
            source_app,
            window_title,
            source_url,
            capture_type,
            tags,
            content_hash: Option::Some(hash),
        };
        assert(is_capture_of(entry, trim_of(text@), now, window_title, source_app, config.rules@));
        history.insert(entry, now, config.dedup_window_minutes);
        TextOutcome::Stored
    }

    /// Handles the clipboard image read on a tick: `rgba` holds `width` by
    /// `height` pixels, four bytes each, `now` is on the monotonic clock.
    /// Returns the announcement when the image is new and probably a
    /// screenshot. Pixels of any other length are passed over.
    pub fn on_image(&mut self, width: u32, height: u32, rgba: &[u8], window_title: Option<&str>, now: i64) -> (r: Option<ClipboardImagePayload>)
        ensures
            final(self).last_text() == old(self).last_text(),
            final(self).own_text() == old(self).own_text(),
            final(self).snip_seen_at() == old(self).snip_seen_at(),
            rgba@.len() != 4 * width * height ==> r is None && final(self).last_image() == old(self).last_image(),
            rgba@.len() == 4 * width * height ==> final(self).last_image() == sha256_hex(rgba@),
            sha256_hex(rgba@) == old(self).last_image() ==> r is None,
            rgba@.len() == 4 * width * height && sha256_hex(rgba@) != old(self).last_image() ==> ({
                let png = png_of(width, height, rgba@);
                let probable = probable_screenshot(width, height, opt_view(window_title))
                    || now - old(self).snip_seen_at() <= RECENT_SNIP_MILLIS;
                &&& r is Some <==> (png.len() > 0 && probable)
                &&& r matches Some(p) ==> p.width == width && p.height == height
                    && p.data_url@ == "data:image/png;base64,"@ + base64_of(png)
            }),
    {
        assert((width as int) * (height as int) <= 0xffff_ffff_ffff_ffffu128) by (nonlinear_arith)
            requires
                width <= 0xffff_ffffu32,
                height <= 0xffff_ffffu32,
        ;
        let pixels = (width as u128) * (height as u128);
        assert(4 * width * height == 4 * (pixels as int)) by (nonlinear_arith)
            requires
                pixels as int == (width as int) * (height as int),
        ;
        if (rgba.len() as u128) != 4 * pixels {
            return Option::None;
        }
        let hash = sha256_hex_of(rgba);
        if same_text(hash.as_str(), self.last_image_hash.as_str()) {
            return Option::None;
        }
        self.last_image_hash = hash;
        let png = encode_png(width, height, rgba);
        if png.len() == 0 {
            return Option::None;
        }
        let by_size_or_title = is_probable_screenshot(width, height, window_title);
        let recent = self.snip.recent(now);
        if !(by_size_or_title || recent) {
            return Option::None;
        }
        let mut data_url = owned("data:image/png;base64,");
        let b64 = encode_base64(png.as_slice());
        data_url.append(b64.as_str());
        Option::Some(ClipboardImagePayload { data_url, width, height })
    }
}

/// Reading the same text twice in a row changes the history at most once:
/// after the first read the text is the last one seen, so the second read is
/// not new.
pub proof fn lemma_repeated_text_is_not_new(last: Seq<char>, text: Seq<char>)
    ensures
        !is_new_text(text_after(last, text), text),
{
}

/// Code and links are kept whatever their length: a short text that
/// classifies as a link passes the length filter.
pub proof fn lemma_links_pass_length_filter(t: Seq<char>, min_text_length: nat)
    requires
        parses_as_url(t),
    ensures
        capture_type_of(t) == link_type(),
        long_enough(t, min_text_length),
{
}

} // verus!
