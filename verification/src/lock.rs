//! The lock state of the screen, as the compositor's notifications leave it.
//!
//! The watcher itself only keeps the state. Whoever listens to the
//! compositor feeds it the events and asks it whether key mappings should
//! currently be off.

use vstd::prelude::*;

verus! {

/// What the compositor reports about the session lock.
#[derive(Clone, Copy, Debug, PartialEq, Eq)]
pub enum LockEvent {
    /// The screen has been locked.
    Locked,
    /// The screen has been unlocked.
    Unlocked,
}

/// The highest version of the lock notifier that the watcher speaks.
pub const NOTIFIER_VERSION: u32 = 1;

/// The version to bind the lock notifier at, given the version that the
/// compositor advertises: the advertised one, but never above
/// [`NOTIFIER_VERSION`].
pub fn bind_version(advertised: u32) -> (version: u32)
    ensures
        version <= advertised,
        version <= NOTIFIER_VERSION,
        version == advertised || version == NOTIFIER_VERSION,
{
    if advertised < NOTIFIER_VERSION {
        advertised
    } else {
        NOTIFIER_VERSION
    }
}

/// Tracks whether the screen is locked, from the events it is fed.
pub struct HyprlandLockWatcher {
    pub is_locked: bool,
}

impl HyprlandLockWatcher {
    /// A fresh watcher has seen no event and takes the screen to be
    /// unlocked. Making one never fails.
    pub fn new() -> (r: Result<Self, String>)
        ensures
            r is Ok,
            !r->Ok_0.is_locked,
    {
        Ok(HyprlandLockWatcher { is_locked: false })
    }

    /// Whether the screen is locked: whether the last event seen was
    /// `Locked`.
    pub fn is_locked(&self) -> (locked: bool)
        ensures
            locked == self.is_locked,
    {
        self.is_locked
    }

    /// Takes note of a lock event: after `Locked` the screen is locked,
    /// after `Unlocked` it is not.
    pub fn record(&mut self, event: LockEvent)
        ensures
            final(self).is_locked == (event == LockEvent::Locked),
    {
        match event {
            LockEvent::Locked => {
                self.is_locked = true;
            },
            LockEvent::Unlocked => {
                self.is_locked = false;
            },
        }
    }
}

} // verus!
