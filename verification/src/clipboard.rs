//! Clipboard capture rules: the pasteboard is polled for its change count,
//! and a changed plain-text content is kept when it is non-empty and at
//! most 100 KiB.

use vstd::prelude::*;

verus! {

/// Delay between two pasteboard polls, in milliseconds.
pub const POLL_INTERVAL_MS: u64 = 300;

/// Largest text, in UTF-8 bytes, that is stored.
pub const MAX_BYTES: usize = 100 * 1024;

/// Tracks the pasteboard change count between polls.
pub struct ClipboardPoller {
    last_change: isize,
}

impl View for ClipboardPoller {
    type V = isize;

    closed spec fn view(&self) -> isize {
        self.last_change
    }
}

/// Text worth storing: non-empty and at most `MAX_BYTES` UTF-8 bytes (as
/// `str::len` counts them).
pub open spec fn capturable(text: Seq<char>) -> bool {
    text.len() > 0 && (vstd::utf8::encode_utf8(text).len() as usize) <= MAX_BYTES
}

impl ClipboardPoller {
    /// A poller that has seen the change count `initial_change`.
    pub fn new(initial_change: isize) -> (r: Self)
        ensures
            r@ == initial_change,
    {
        ClipboardPoller { last_change: initial_change }
    }

    /// Records a change-count reading: `true` when it differs from the last
    /// one seen, that is when the pasteboard changed and must be read.
    pub fn observe(&mut self, current: isize) -> (changed: bool)
        ensures
            changed == (current != old(self)@),
            final(self)@ == current,
    {
        if current == self.last_change {
            return false;
        }
        self.last_change = current;
        true
    }
}

/// Whether text read from the pasteboard is stored.
pub fn should_capture(text: &str) -> (r: bool)
    ensures
        r == capturable(text@),
{
    !text.is_empty() && text.len() <= MAX_BYTES
}

} // verus!
