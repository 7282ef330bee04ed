//! The daemon's handling of the commands that arrive on its socket.
//!
//! A `stop` ends the daemon; a malformed command is reported and answered.
//! A `set` is held while further commands are waiting: a newer `set`
//! replaces it (the older one is dropped unanswered), and the held one is
//! applied once the queue is empty or a command other than `set` comes.  A
//! `stop` that comes then still ends the daemon, after the held `set` has
//! been applied; a malformed command that comes then is dropped unanswered.
use vstd::prelude::*;
use crate::ipc::{Command, CommandView, parse_command};

verus! {

/// What the daemon does next.
pub enum Action {
    /// Stop the daemon.
    Stop,
    /// Report the error and answer the message.
    Reject(String),
    /// Hold this `set` and look for more commands.
    Hold,
    /// Drop the held `set` unanswered, hold this one, and look for more.
    Supersede,
    /// Drop the message just received unanswered, then apply the held `set`
    /// and answer it.
    ApplyDiscarding(Command),
    /// Apply the held `set` and answer it.
    Apply(Command),
    /// Apply the held `set` and answer it, then stop the daemon.
    ApplyThenStop(Command),
}

/// The command the dispatcher holds, if any.
pub struct Dispatcher {
    held: Option<Command>,
}

impl Dispatcher {
    pub closed spec fn held_view(&self) -> Option<CommandView> {
        match self.held {
            Some(c) => Some(c@),
            None => None,
        }
    }

    /// Only `set` commands are ever held.
    pub closed spec fn wf(&self) -> bool {
        self.held matches Some(c) ==> c@ is SetWallpaper
    }

    pub fn new() -> (d: Self)
        ensures
            d.held_view() is None,
            d.wf(),
    {
        Dispatcher { held: None }
    }

    /// Whether a `set` is held.
    pub fn holding(&self) -> (r: bool)
        ensures
            r == (self.held_view() is Some),
    {
        self.held.is_some()
    }

    /// A command line arrived.
    pub fn on_message(&mut self, raw: &str) -> (a: Action)
        requires
            old(self).wf(),
        ensures
            final(self).wf(),
            match old(self).held_view() {
                None => match parse_command(raw@) {
                    Ok(CommandView::Stop) => a is Stop && final(self).held_view() is None,
                    Ok(c) => a is Hold && final(self).held_view() == Some(c),
                    Err(e) => (a matches Action::Reject(m) && m@ == e) && final(self).held_view() is None,
                },
                Some(h) => match parse_command(raw@) {
                    Ok(c) => if c is SetWallpaper {
                        a is Supersede && final(self).held_view() == Some(c)
                    } else {
                        (a matches Action::ApplyThenStop(k) && k@ == h) && final(self).held_view() is None
                    },
                    Err(_) => (a matches Action::ApplyDiscarding(k) && k@ == h) && final(self).held_view() is None,
                },
            },
    {
        let parsed = Command::parse_raw(raw);
        match self.held.take() {
            None => match parsed {
                Ok(Command::Stop) => Action::Stop,
                Ok(c) => {
                    self.held = Some(c);
                    Action::Hold
                },
                Err(e) => Action::Reject(e),
            },
            Some(h) => match parsed {
                Ok(Command::SetWallpaper { palette, bezier, scale, anchor_x, anchor_y, path }) => {
                    self.held = Some(Command::SetWallpaper { palette, bezier, scale, anchor_x, anchor_y, path });
                    Action::Supersede
                },
                Ok(Command::Stop) => Action::ApplyThenStop(h),
                Err(_) => Action::ApplyDiscarding(h),
            },
        }
    }

    /// No further command is waiting.
    pub fn on_empty(&mut self) -> (a: Option<Action>)
        requires
            old(self).wf(),
        ensures
            final(self).wf(),
            final(self).held_view() is None,
            match old(self).held_view() {
                None => a is None,
                Some(h) => a matches Some(Action::Apply(c)) && c@ == h,
            },
    {
        match self.held.take() {
            None => None,
            Some(h) => Some(Action::Apply(h)),
        }
    }
}

} // verus!
