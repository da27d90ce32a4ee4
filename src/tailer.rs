//! Decisions of the tailer that follows one log file.
//!
//! The caller performs each returned `Action` (registering watches, opening
//! the file, draining entries through a `LogReader`) and reports what
//! happened as the next `Event`.

use vstd::prelude::*;

verus! {

/// Attempts made before a source stops being followed.
pub const DEFAULT_ATTEMPTS: u32 = 3;

/// Where the tailer stands.
#[derive(Debug, Clone, Copy, PartialEq, Eq, Structural)]
pub enum TailState {
    /// registering a watch on the log file
    Init,
    /// the log file did not exist: waiting for it to be created
    WatchingDirectory,
    /// following the log file
    WatchingFile,
    /// out of attempts
    Failed,
}

/// Why an attempt ended.
#[derive(Debug, Clone, Copy, PartialEq, Eq, Structural)]
pub enum FailReason {
    /// the file became shorter than what was already read
    Truncated,
    /// registering a watch, opening, reading or decoding failed
    Error,
}

/// What happened since the last action.
#[derive(Debug, Clone, Copy, PartialEq, Eq, Structural)]
pub enum Event {
    /// the watch on the log file is registered and the file is open; `len`
    /// is its size
    FileWatched { len: u64 },
    /// the log file does not exist
    FileMissing,
    /// the watch on the parent directory is registered
    DirectoryWatched,
    /// an entry was created in the directory; `is_log_file` tells whether it
    /// has the log file's name
    Created { is_log_file: bool },
    /// the log file was modified; `len` is its size now
    Modified { len: u64 },
    /// a file was moved to the log file's path
    Replaced,
    /// a drain finished after reading `consumed` bytes
    Drained { consumed: u64 },
    /// the last action failed
    Failure,
}

/// What the caller does next.
#[derive(Debug, Clone, Copy, PartialEq, Eq, Structural)]
pub enum Action {
    /// register a watch on the log file and open it
    WatchFile,
    /// register a watch for entries created in the parent directory
    WatchDirectory,
    /// wait for the next notification
    Wait,
    /// decode every complete entry available and publish it
    Drain,
    /// open the file at the same path anew and reset the reader
    Reopen,
    /// report the reason and start a new attempt with `WatchFile`
    Retry(FailReason),
    /// report the reason and stop following this source
    GiveUp(FailReason),
}

/// State of the tailer of one log source.
pub struct Tailer {
    pub state: TailState,
    /// bytes of the file already consumed
    pub position: u64,
    /// attempts that ended in failure
    pub attempts: u32,
    /// attempts allowed
    pub max_attempts: u32,
    /// the file appeared while waiting for it: follow it from its start
    pub from_start: bool,
}

impl Tailer {
    /// A tailer about to make its first attempt; its first action is
    /// `WatchFile`.
    pub fn new(max_attempts: u32) -> (r: Tailer)
        ensures
            r.state == TailState::Init,
            r.position == 0,
            r.attempts == 0,
            r.max_attempts == max_attempts,
            !r.from_start,
    {
        Tailer { state: TailState::Init, position: 0, attempts: 0, max_attempts, from_start: false }
    }

    /// The end of one attempt: another one, or the end once `max_attempts`
    /// attempts have failed.
    pub open spec fn failed_with(self, after: Tailer, a: Action, reason: FailReason) -> bool {
        &&& after.attempts == if self.attempts < u32::MAX {
            self.attempts + 1
        } else {
            self.attempts as int
        }
        &&& after.max_attempts == self.max_attempts
        &&& after.position == self.position
        &&& !after.from_start
        &&& if after.attempts >= self.max_attempts {
            after.state == TailState::Failed && a == Action::GiveUp(reason)
        } else {
            after.state == TailState::Init && a == Action::Retry(reason)
        }
    }

    /// The tailer is left as it was.
    pub open spec fn unchanged(self, after: Tailer) -> bool {
        &&& after.state == self.state
        &&& after.position == self.position
        &&& after.attempts == self.attempts
        &&& after.max_attempts == self.max_attempts
        &&& after.from_start == self.from_start
    }

    fn fail(&mut self, reason: FailReason) -> (a: Action)
        ensures
            old(self).failed_with(*final(self), a, reason),
    {
        if self.attempts < u32::MAX {
            self.attempts = self.attempts + 1;
        }
        self.from_start = false;
        if self.attempts >= self.max_attempts {
            self.state = TailState::Failed;
            Action::GiveUp(reason)
        } else {
            self.state = TailState::Init;
            Action::Retry(reason)
        }
    }

    /// Takes in one event and says what to do next.
    ///
    /// A modification that leaves the file shorter than what was consumed
    /// ends the attempt as truncated, without reading; a replacement resets
    /// the position to the file's start and asks for the file to be reopened.
    pub fn on_event(&mut self, event: Event) -> (a: Action)
        ensures
            old(self).state == TailState::Failed ==> old(self).unchanged(*final(self)) && a
                == Action::GiveUp(FailReason::Error),
            old(self).state != TailState::Failed && event == Event::Failure ==> old(
                self,
            ).failed_with(*final(self), a, FailReason::Error),
            old(self).state == TailState::Init ==> match event {
                Event::FileWatched { len } => {
                    &&& final(self).state == TailState::WatchingFile
                    &&& final(self).position == if old(self).from_start {
                        0
                    } else {
                        len
                    }
                    &&& final(self).attempts == old(self).attempts
                    &&& final(self).max_attempts == old(self).max_attempts
                    &&& final(self).from_start == old(self).from_start
                    &&& a == Action::Wait
                },
                Event::FileMissing => old(self).unchanged(*final(self)) && a
                    == Action::WatchDirectory,
                Event::DirectoryWatched => {
                    &&& final(self).state == TailState::WatchingDirectory
                    &&& final(self).position == old(self).position
                    &&& final(self).attempts == old(self).attempts
                    &&& final(self).max_attempts == old(self).max_attempts
                    &&& final(self).from_start == old(self).from_start
                    &&& a == Action::Wait
                },
                Event::Failure => true,
                _ => old(self).unchanged(*final(self)) && a == Action::Wait,
            },
            old(self).state == TailState::WatchingDirectory ==> match event {
                Event::Created { is_log_file: true } => {
                    &&& final(self).state == TailState::Init
                    &&& final(self).position == 0
                    &&& final(self).attempts == old(self).attempts
                    &&& final(self).max_attempts == old(self).max_attempts
                    &&& final(self).from_start
                    &&& a == Action::WatchFile
                },
                Event::Failure => true,
                _ => old(self).unchanged(*final(self)) && a == Action::Wait,
            },
            old(self).state == TailState::WatchingFile ==> match event {
                Event::Modified { len } => if len < old(self).position {
                    old(self).failed_with(*final(self), a, FailReason::Truncated)
                } else {
                    old(self).unchanged(*final(self)) && a == Action::Drain
                },
                Event::Replaced => {
                    &&& final(self).state == TailState::WatchingFile
                    &&& final(self).position == 0
                    &&& final(self).attempts == old(self).attempts
                    &&& final(self).max_attempts == old(self).max_attempts
                    &&& final(self).from_start == old(self).from_start
                    &&& a == Action::Reopen
                },
                Event::Drained { consumed } => {
                    &&& final(self).state == TailState::WatchingFile
                    &&& final(self).position == if old(self).position + consumed <= u64::MAX {
                        old(self).position + consumed
                    } else {
                        u64::MAX as int
                    }
                    &&& final(self).attempts == old(self).attempts
                    &&& final(self).max_attempts == old(self).max_attempts
                    &&& final(self).from_start == old(self).from_start
                    &&& a == Action::Wait
                },
                Event::Failure => true,
                _ => old(self).unchanged(*final(self)) && a == Action::Wait,
            },
    {
        match self.state {
            TailState::Failed => Action::GiveUp(FailReason::Error),
            TailState::Init => match event {
                Event::FileWatched { len } => {
                    self.state = TailState::WatchingFile;
                    self.position = if self.from_start {
                        0
                    } else {
                        len
                    };
                    Action::Wait
                },
                Event::FileMissing => Action::WatchDirectory,
                Event::DirectoryWatched => {
                    self.state = TailState::WatchingDirectory;
                    Action::Wait
                },
                Event::Failure => self.fail(FailReason::Error),
                _ => Action::Wait,
            },
            TailState::WatchingDirectory => match event {
                Event::Created { is_log_file: true } => {
                    self.state = TailState::Init;
                    self.position = 0;
                    self.from_start = true;
                    Action::WatchFile
                },
                Event::Failure => self.fail(FailReason::Error),
                _ => Action::Wait,
            },
            TailState::WatchingFile => match event {
                Event::Modified { len } => {
                    if len < self.position {
                        self.fail(FailReason::Truncated)
                    } else {
                        Action::Drain
                    }
                },
                Event::Replaced => {
                    self.position = 0;
                    Action::Reopen
                },
                Event::Drained { consumed } => {
                    self.position = if consumed > u64::MAX - self.position {
                        u64::MAX
                    } else {
                        self.position + consumed
                    };
                    Action::Wait
                },
                Event::Failure => self.fail(FailReason::Error),
                _ => Action::Wait,
            },
        }
    }
}

} // verus!
