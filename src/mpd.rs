//! What a music player reports about the song it plays.

use vstd::prelude::*;

use crate::util::OptionalString;

verus! {

/// The status of a playing (or paused) song.
#[derive(Debug, Default, Clone)]
pub struct MpdStatus {
    pub volume: i32,
    pub elapsed: u64,
    pub duration: u64,
    pub artist: OptionalString,
    pub file: String,
    pub title: OptionalString,
    pub paused: bool,
}

/// The player's state: stopped, or playing with a status.
#[derive(Debug, Default, Clone)]
pub struct MpdState {
    pub stopped: bool,
    pub inner: MpdStatus,
}

impl MpdState {
    /// The status, unless the player is stopped.
    pub fn get(&self) -> (r: Option<&MpdStatus>)
        ensures
            match r {
                Some(s) => !self.stopped && s == &self.inner,
                None => self.stopped,
            },
    {
        if self.stopped {
            None
        } else {
            Some(&self.inner)
        }
    }
}

} // verus!
