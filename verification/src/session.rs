//! The state of the desktop window between frames: what the status line
//! says, whether a transcription runs, and when a new one may start.

use vstd::prelude::*;
use crate::text::{chars_of, trim, trim_chars};

verus! {

/// What the window finds when it polls the transcription worker.
pub enum WorkerEvent {
    /// A progress message.
    Progress(String),
    /// The final message of a run.
    Done(String),
    /// No message is waiting.
    Empty,
    /// The worker is gone without a final message.
    Disconnected,
}

/// The window's state.
pub struct Session {
    /// The status line.
    pub status: String,
    /// A transcription is running.
    pub in_progress: bool,
    /// The window listens to a worker.
    pub listening: bool,
}

/// The field holds only white space (`str::trim` leaves nothing).
pub open spec fn blank(s: Seq<char>) -> bool {
    trim(s).len() == 0
}

/// Does the field hold only white space?
pub fn is_blank(s: &str) -> (r: bool)
    ensures
        r == blank(s@),
{
    let cs = chars_of(s);
    let t = trim_chars(cs.as_slice());
    t.len() == 0
}

impl Session {
    /// The window listens to a worker exactly while a run is in progress.
    pub open spec fn consistent(&self) -> bool {
        self.in_progress == self.listening
    }

    /// The state of a new window: empty status, nothing running.
    pub fn new() -> (s: Session)
        ensures
            s.status@ == Seq::<char>::empty(),
            !s.in_progress,
            !s.listening,
            s.consistent(),
    {
        Session { status: String::new(), in_progress: false, listening: false }
    }

    /// Takes one event from the worker; the result says whether to poll
    /// again in this frame.
    pub fn on_event(&mut self, ev: WorkerEvent) -> (again: bool)
        requires
            old(self).listening,
        ensures
            match ev {
                WorkerEvent::Progress(m) => {
                    &&& again
                    &&& final(self).status@ == m@
                    &&& final(self).in_progress == old(self).in_progress
                    &&& final(self).listening
                },
                WorkerEvent::Done(m) => {
                    &&& !again
                    &&& final(self).status@ == m@
                    &&& !final(self).in_progress
                    &&& !final(self).listening
                },
                WorkerEvent::Empty => {
                    &&& !again
                    &&& final(self).status@ == old(self).status@
                    &&& final(self).in_progress == old(self).in_progress
                    &&& final(self).listening
                },
                WorkerEvent::Disconnected => {
                    &&& !again
                    &&& final(self).status@ == old(self).status@
                    &&& !final(self).in_progress
                    &&& !final(self).listening
                },
            },
            old(self).consistent() ==> final(self).consistent(),
    {
        match ev {
            WorkerEvent::Progress(m) => {
                self.status = m;
                true
            },
            WorkerEvent::Done(m) => {
                self.status = m;
                self.in_progress = false;
                self.listening = false;
                false
            },
            WorkerEvent::Empty => false,
            WorkerEvent::Disconnected => {
                self.in_progress = false;
                self.listening = false;
                false
            },
        }
    }

    /// A run may start when none is running and the video, model and output
    /// fields are all filled in.
    pub fn can_start(&self, media: &str, model: &str, output_dir: &str) -> (r: bool)
        ensures
            r == (!self.in_progress && !blank(media@) && !blank(model@) && !blank(output_dir@)),
    {
        !self.in_progress && !is_blank(media) && !is_blank(model) && !is_blank(output_dir)
    }

    /// Starts a run: the window listens to the new worker and shows
    /// `status`.
    pub fn start(&mut self, status: String)
        ensures
            final(self).in_progress,
            final(self).listening,
            final(self).consistent(),
            final(self).status@ == status@,
    {
        self.in_progress = true;
        self.listening = true;
        self.status = status;
    }
}

} // verus!
