//! The screenshot heuristic: a window-title signal, a size fallback, and a
//! marker of when a screenshot tool was last in the foreground.
use vstd::prelude::*;
use crate::text::{has_substring, lower_of, lowercase, str_contains};

verus! {

/// Name fragments of screenshot tools, in lower case, localised variants
/// included.
pub open spec fn snip_tool_fragments() -> Seq<Seq<char>> {
    seq![
        "snipping tool"@, "snippingtool"@, "snip & sketch"@, "screen snip"@, "screenshot"@,
        "print screen"@, "prt sc"@, "sharex"@, "greenshot"@, "lightshot"@, "snipaste"@,
        "recorte"@, "captura"@, "ferramenta de recorte"@, "recortes"@,
    ]
}

/// A lower-cased window title names a screenshot tool.
pub open spec fn is_snip_title(title_lower: Seq<char>) -> bool {
    exists|i: int| 0 <= i < snip_tool_fragments().len() && has_substring(title_lower, #[trigger] snip_tool_fragments()[i])
}

/// Large enough to be a screen capture: at least 800 by 600, or at least
/// 400,000 pixels.
pub open spec fn size_suggests(width: u32, height: u32) -> bool {
    (width >= 800 && height >= 600) || width * height >= 400000
}

/// The verdict for an image of `width` by `height` while the foreground
/// window has title `title`, if known.
pub open spec fn probable_screenshot(width: u32, height: u32, title: Option<Seq<char>>) -> bool {
    (title is Some && is_snip_title(lower_of(title->0))) || size_suggests(width, height)
}

/// How long after a screenshot tool was seen an image still counts as one.
pub const RECENT_SNIP_MILLIS: i64 = 6000;

/// How long before start-up the tool is taken to have been seen last.
pub const SNIP_LOOKBACK_MILLIS: i64 = 60000;

/// The fragments, in the order they are tried.
fn fragments() -> (r: Vec<&'static str>)
    ensures
        r@.map_values(|s: &str| s@) == snip_tool_fragments(),
{
    let r = vec![
        "snipping tool", "snippingtool", "snip & sketch", "screen snip", "screenshot",
        "print screen", "prt sc", "sharex", "greenshot", "lightshot", "snipaste",
        "recorte", "captura", "ferramenta de recorte", "recortes",
    ];
    assert(r@.map_values(|s: &str| s@) =~= snip_tool_fragments());
    r
}

/// Whether a lower-cased window title names a screenshot tool.
pub fn is_snipping_window_title(title_lower: &str) -> (r: bool)
    ensures
        r == is_snip_title(title_lower@),
{
    let table = fragments();
    let mut i: usize = 0;
    while i < table.len()
        invariant
            i <= table.len(),
            table@.map_values(|s: &str| s@) == snip_tool_fragments(),
            forall|j: int| 0 <= j < i ==> !has_substring(title_lower@, #[trigger] snip_tool_fragments()[j]),
        decreases table.len() - i,
    {
        assert(table@[i as int]@ == snip_tool_fragments()[i as int]);
        if str_contains(title_lower, table[i]) {
            return true;
        }
        i = i + 1;
    }
    false
}

/// Whether the size alone suggests a screen capture.
pub fn size_suggests_screenshot(width: u32, height: u32) -> (r: bool)
    ensures
        r == size_suggests(width, height),
{
    let w = width as u64;
    let h = height as u64;
    assert(w * h <= 0xffff_ffffu64 * 0xffff_ffffu64) by (nonlinear_arith)
        requires
            w <= 0xffff_ffffu64,
            h <= 0xffff_ffffu64,
    ;
    (width >= 800 && height >= 600) || w * h >= 400000
}

/// Whether an image of `width` by `height` is probably a screenshot: the
/// foreground window, when its title is known, names a screenshot tool, or
/// else the size suggests one.
pub fn is_probable_screenshot(img_width: u32, img_height: u32, window_title: Option<&str>) -> (r: bool)
    ensures
        r == probable_screenshot(img_width, img_height, match window_title {
            Option::Some(t) => Option::Some(t@),
            Option::None => Option::None,
        }),
{
    match window_title {
        Option::Some(t) => {
            let lowered = lowercase(t);
            if is_snipping_window_title(lowered.as_str()) {
                return true;
            }
        },
        Option::None => {},
    }
    size_suggests_screenshot(img_width, img_height)
}

/// Title and application of the foreground window, where the platform lets
/// them be read. Window introspection is a Win32 facility that this library
/// does not bind, so neither is known and only the size fallback applies.
pub fn get_active_window_info() -> (r: (Option<String>, Option<String>))
    ensures
        r.0 is None,
        r.1 is None,
{
    (Option::None, Option::None)
}

/// When a screenshot tool was last seen in the foreground, on a monotonic
/// millisecond clock.
pub struct SnipTracker {
    last_seen: i64,
}

impl SnipTracker {
    /// The instant the tool was last seen.
    pub closed spec fn last_seen_at(&self) -> int {
        self.last_seen as int
    }

    /// A tracker started at `now`, with no recent sighting.
    pub fn new(now: i64) -> (r: SnipTracker)
        requires
            now >= i64::MIN + SNIP_LOOKBACK_MILLIS,
        ensures
            r.last_seen_at() == now - SNIP_LOOKBACK_MILLIS,
    {
        SnipTracker { last_seen: now - SNIP_LOOKBACK_MILLIS }
    }

    /// Samples the foreground window title at `now`.
    pub fn observe_title(&mut self, window_title: Option<&str>, now: i64)
        ensures
            (window_title matches Some(t) && is_snip_title(lower_of(t@)))
                ==> final(self).last_seen_at() == now,
            !(window_title matches Some(t) && is_snip_title(lower_of(t@)))
                ==> final(self).last_seen_at() == old(self).last_seen_at(),
    {
        match window_title {
            Option::Some(t) => {
                let lowered = lowercase(t);
                if is_snipping_window_title(lowered.as_str()) {
                    self.last_seen = now;
                }
            },
            Option::None => {},
        }
    }

    /// Whether a screenshot tool was seen within the last few seconds.
    pub fn recent(&self, now: i64) -> (r: bool)
        ensures
            r == (now - self.last_seen_at() <= RECENT_SNIP_MILLIS),
    {
        (now as i128) - (self.last_seen as i128) <= (RECENT_SNIP_MILLIS as i128)
    }
}

} // verus!
