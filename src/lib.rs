//! Clipboard capture core: text normalisation and content hashing, capture
//! classification, user rules, the screenshot heuristic, the pinned and
//! size-bounded history store, and the per-tick capture decisions.

pub mod classify;
pub mod history;
pub mod normal_form;
pub mod pipeline;
pub mod rules;
pub mod screenshot;
pub mod text;

pub use classify::{default_capture_type, detect_capture_type};
pub use rules::Rule;
pub use pipeline::{CaptureConfig, CaptureState, ClipboardContent, ClipboardImagePayload, TextOutcome};
pub use history::{ClipboardHistory, ClipboardHistoryEntry, HistoryError};
pub use text::{compute_text_hash, normalize_text_for_hash};
