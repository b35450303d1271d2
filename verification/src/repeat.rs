//! Key repeat: which key is held, since when, and when it repeats next.
//!
//! Times are nanoseconds on a monotonic clock that the caller reads.

use vstd::prelude::*;

use xkeysym::KeyCode;

verus! {

#[verifier::external_type_specification]
#[verifier::external_body]
pub struct ExKeyCode(KeyCode);

/// The key code that `KeyCode::new` makes from a raw code.
pub uninterp spec fn keycode_of(raw: u32) -> KeyCode;

/// Calls `xkeysym::KeyCode::new`, which wraps the raw code.
#[verifier::external_body]
fn keycode_new(raw: u32) -> (k: KeyCode)
    ensures
        k == keycode_of(raw),
{
    KeyCode::new(raw)
}

/// The XKB key code of an evdev key code, which is 8 higher.
pub fn key_from_evdev(key: u32) -> (k: KeyCode)
    requires
        key <= u32::MAX - 8,
    ensures
        k == keycode_of((key + 8) as u32),
{
    keycode_new(key + 8)
}

/// The held key, when it was pressed, and when it last repeated.
#[derive(Debug)]
pub struct RepeatState {
    key: KeyCode,
    started_at: u64,
    last_repeat: u64,
}

impl RepeatState {
    pub closed spec fn held_key(&self) -> KeyCode {
        self.key
    }

    pub closed spec fn pressed_at(&self) -> u64 {
        self.started_at
    }

    pub closed spec fn repeated_at(&self) -> u64 {
        self.last_repeat
    }

    /// A key pressed at `now`, which counts as its last repeat too.
    pub fn new(key: KeyCode, now: u64) -> (s: Self)
        ensures
            s.held_key() == key,
            s.pressed_at() == now,
            s.repeated_at() == now,
    {
        Self { key, started_at: now, last_repeat: now }
    }
}

/// The repeat settings of the keyboard: repeats per second, and the delay
/// in milliseconds before the first repeat.
#[derive(Debug)]
pub struct RepeatConfig {
    pub rate: u32,
    pub delay: u32,
}

impl RepeatConfig {
    /// Settings with the given rate and delay.
    pub fn new(rate: u32, delay: u32) -> (c: Self)
        ensures
            c.rate == rate,
            c.delay == delay,
    {
        Self { rate, delay }
    }
}

/// The repeat settings, once known, and the held key, if any.
#[derive(Debug, Default)]
pub struct Repeat {
    state: Option<RepeatState>,
    config: Option<RepeatConfig>,
}

/// Time from `earlier` to `now`, or zero when `now` is not later.
pub open spec fn elapsed(now: u64, earlier: u64) -> int {
    if now >= earlier {
        now - earlier
    } else {
        0
    }
}

/// The held key repeats at `now`: the delay has passed since it was pressed
/// and the interval has passed since it last repeated.
pub open spec fn repeat_due(c: RepeatConfig, s: RepeatState, now: u64, interval: u64) -> bool {
    elapsed(now, s.pressed_at()) >= c.delay * 1_000_000 && elapsed(now, s.repeated_at())
        >= interval
}

impl Repeat {
    pub closed spec fn held(&self) -> Option<RepeatState> {
        self.state
    }

    pub closed spec fn settings(&self) -> Option<RepeatConfig> {
        self.config
    }

    /// The key to repeat at `now`, given the interval between repeats in
    /// nanoseconds (one second divided by the rate): the held key when a
    /// repeat is due, which then counts as repeated at `now`.
    pub fn get_repeat(&mut self, now: u64, interval: u64) -> (k: Option<KeyCode>)
        ensures
            match (old(self).settings(), old(self).held()) {
                (Some(c), Some(s)) => if repeat_due(c, s, now, interval) {
                    &&& k == Some(s.held_key())
                    &&& final(self).settings() == old(self).settings()
                    &&& final(self).held() matches Some(t)
                    &&& t.held_key() == s.held_key()
                    &&& t.pressed_at() == s.pressed_at()
                    &&& t.repeated_at() == now
                } else {
                    k is None && *final(self) == *old(self)
                },
                _ => k is None && *final(self) == *old(self),
            },
    {
        let delay: u64 = match &self.config {
            Some(config) => config.delay as u64 * 1_000_000,
            None => return None,
        };
        match &mut self.state {
            Some(state) => {
                let since_press = now.saturating_sub(state.started_at);
                let since_repeat = now.saturating_sub(state.last_repeat);
                if since_press >= delay && since_repeat >= interval {
                    state.last_repeat = now;
                    Some(state.key)
                } else {
                    None
                }
            },
            None => None,
        }
    }

    /// Whether the settings are known and a key is held, so that a repeat
    /// can fall due.
    pub fn is_active(&self) -> (b: bool)
        ensures
            b == (self.settings() is Some && self.held() is Some),
    {
        self.config.is_some() && self.state.is_some()
    }

    /// Forgets the held key.
    pub fn reset_state(&mut self)
        ensures
            final(self).held() is None,
            final(self).settings() == old(self).settings(),
    {
        self.state = None;
    }

    /// Holds `key`, pressed at `now`.
    pub fn set_state(&mut self, key: KeyCode, now: u64)
        ensures
            final(self).held() matches Some(s) && s.held_key() == key && s.pressed_at() == now
                && s.repeated_at() == now,
            final(self).settings() == old(self).settings(),
    {
        self.state = Some(RepeatState::new(key, now));
    }

    /// Records the repeat settings.
    pub fn set_config(&mut self, rate: u32, delay: u32)
        ensures
            final(self).settings() == Some(RepeatConfig { rate, delay }),
            final(self).held() == old(self).held(),
    {
        self.config = Some(RepeatConfig::new(rate, delay));
    }

    /// A key event at `now`: a release forgets the held key; a press of the
    /// evdev key `key` holds its XKB key code and returns it for handling.
    pub fn key_event(&mut self, key: u32, pressed: bool, now: u64) -> (k: Option<KeyCode>)
        requires
            key <= u32::MAX - 8,
        ensures
            !pressed ==> k is None && final(self).held() is None,
            pressed ==> {
                &&& k == Some(keycode_of((key + 8) as u32))
                &&& final(self).held() matches Some(s)
                &&& s.held_key() == keycode_of((key + 8) as u32)
                &&& s.pressed_at() == now
                &&& s.repeated_at() == now
            },
            final(self).settings() == old(self).settings(),
    {
        if !pressed {
            self.reset_state();
            return None;
        }
        let code = key_from_evdev(key);
        self.set_state(code, now);
        Some(code)
    }
}

} // verus!

verus! {

/// A key that just repeated does not repeat again before the interval has
/// passed.
pub proof fn lemma_no_repeat_within_interval(
    before: Repeat,
    after: Repeat,
    now: u64,
    later: u64,
    interval: u64,
)
    requires
        before.settings() is Some,
        before.held() is Some,
        repeat_due(before.settings().unwrap(), before.held().unwrap(), now, interval),
        after.settings() == before.settings(),
        after.held() is Some,
        after.held().unwrap().held_key() == before.held().unwrap().held_key(),
        after.held().unwrap().pressed_at() == before.held().unwrap().pressed_at(),
        after.held().unwrap().repeated_at() == now,
        now <= later,
        later - now < interval,
    ensures
        !repeat_due(after.settings().unwrap(), after.held().unwrap(), later, interval),
{
}

} // verus!
