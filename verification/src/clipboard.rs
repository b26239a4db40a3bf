//! The clipboard-sync add-on's rule: the newest clipboard text wins. The
//! add-on watches the local clipboard, sends each change to the connected
//! devices, and takes in a remote change only when it is newer.
use crate::text::str_eq;
use vstd::prelude::*;

verus! {

/// The service clipboard updates travel on.
pub const CLIPBOARD_SERVICE: &'static str = "clipboard-sync";

/// A clipboard update as devices exchange it.
pub struct ClipboardPayload {
    pub ts_ms: u128,
    pub device_id: String,
    pub device_name: String,
    pub text: String,
}

/// The text the clipboard last held as far as the add-on knows, and when
/// it got it.
pub struct ClipboardSync {
    pub last_text: String,
    pub last_ts: u128,
}

impl ClipboardSync {
    /// Starts from the clipboard's current text, stamped now.
    pub fn new(initial_text: String, now_ms: u128) -> (s: Self)
        ensures
            s.last_text@ == initial_text@,
            s.last_ts == now_ms,
    {
        ClipboardSync { last_text: initial_text, last_ts: now_ms }
    }

    /// A remote update is taken when another device sent it, it is newer
    /// than what the clipboard holds, and its text differs. Returns whether
    /// it was taken; the caller then puts its text on the clipboard.
    pub fn on_remote(&mut self, self_device_id: &str, payload: &ClipboardPayload) -> (apply: bool)
        ensures
            apply == (payload.device_id@ != self_device_id@ && payload.ts_ms > old(self).last_ts
                && payload.text@ != old(self).last_text@),
            apply ==> final(self).last_text@ == payload.text@ && final(self).last_ts == payload.ts_ms,
            !apply ==> final(self).last_text@ == old(self).last_text@ && final(self).last_ts == old(self).last_ts,
            final(self).last_ts >= old(self).last_ts,
    {
        if str_eq(payload.device_id.as_str(), self_device_id) {
            return false;
        }
        if payload.ts_ms > self.last_ts && !str_eq(payload.text.as_str(), self.last_text.as_str()) {
            self.last_text = payload.text.clone();
            self.last_ts = payload.ts_ms;
            true
        } else {
            false
        }
    }

    /// The clipboard now holds `current_text`. When that differs from the
    /// last known text it becomes the latest, stamped `now_ms`, and the
    /// returned update is to be sent to every connected device.
    pub fn on_local(&mut self, current_text: &str, now_ms: u128, device_id: &str, device_name: &str) -> (send: Option<
        ClipboardPayload,
    >)
        ensures
            current_text@ == old(self).last_text@ ==> send is None && final(self).last_text@ == old(self).last_text@
                && final(self).last_ts == old(self).last_ts,
            current_text@ != old(self).last_text@ ==> {
                &&& final(self).last_text@ == current_text@
                &&& final(self).last_ts == now_ms
                &&& send matches Some(p) && p.ts_ms == now_ms && p.device_id@ == device_id@ && p.device_name@
                    == device_name@ && p.text@ == current_text@
            },
    {
        if str_eq(current_text, self.last_text.as_str()) {
            return None;
        }
        self.last_text = current_text.to_owned();
        self.last_ts = now_ms;
        Some(
            ClipboardPayload {
                ts_ms: now_ms,
                device_id: device_id.to_owned(),
                device_name: device_name.to_owned(),
                text: current_text.to_owned(),
            },
        )
    }
}

} // verus!
