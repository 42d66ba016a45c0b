use vstd::prelude::*;

use crate::intent::{clone_opt, opt_view, Intent, IntentView};
use crate::time::ZonedTime;

verus! {

/// Why a session has no duration.
#[derive(Clone, Copy, Debug, PartialEq, Eq, Structural)]
pub enum SessionError {
    MissingEnd,
    EndBeforeStart,
}

/// One interval of work, possibly still open, with what it was for.
#[derive(Debug)]
pub struct Session {
    pub intent: Intent,
    pub start: ZonedTime,
    pub end: Option<ZonedTime>,
    pub note: Option<String>,
}

pub struct SessionView {
    pub intent: IntentView,
    pub start: ZonedTime,
    pub end: Option<ZonedTime>,
    pub note: Option<Seq<char>>,
}

impl View for Session {
    type V = SessionView;

    open spec fn view(&self) -> SessionView {
        SessionView {
            intent: self.intent@,
            start: self.start,
            end: self.end,
            note: opt_view(self.note),
        }
    }
}

impl SessionView {
    /// Its instants lie in the years that a log can name.
    pub open spec fn wf(self) -> bool {
        self.start.wf() && (self.end matches Some(e) ==> e.wf())
    }

    pub open spec fn is_open(self) -> bool {
        self.end is None
    }

    /// The same session, closed at `end`.
    pub open spec fn ended(self, end: ZonedTime) -> SessionView {
        SessionView { end: Some(end), ..self }
    }

    pub open spec fn duration(self) -> Result<int, SessionError> {
        match self.end {
            None => Err(SessionError::MissingEnd),
            Some(e) => if e.utc < self.start.utc {
                Err(SessionError::EndBeforeStart)
            } else {
                Ok(e.utc - self.start.utc)
            },
        }
    }
}

impl Session {
    pub fn new(intent: Intent, start: ZonedTime, end: Option<ZonedTime>, note: Option<String>) -> (r:
        Session)
        ensures
            r@ == (SessionView { intent: intent@, start, end, note: opt_view(note) }),
    {
        Session { intent, start, end, note }
    }

    /// A copy of this session that ends at `end`; this one is left as it is.
    pub fn with_end(&self, end: ZonedTime) -> (r: Session)
        ensures
            r@ == self@.ended(end),
    {
        Session {
            intent: self.intent.copy(),
            start: self.start,
            end: Some(end),
            note: clone_opt(&self.note),
        }
    }

    /// The seconds from start to end.
    pub fn duration(&self) -> (r: Result<i64, SessionError>)
        requires
            self@.wf(),
        ensures
            r matches Ok(d) ==> self@.duration() == Ok::<int, SessionError>(d as int),
            r matches Err(e) ==> self@.duration() == Err::<int, SessionError>(e),
    {
        match self.end {
            None => Err(SessionError::MissingEnd),
            Some(e) => {
                if e.utc < self.start.utc {
                    Err(SessionError::EndBeforeStart)
                } else {
                    Ok(e.utc - self.start.utc)
                }
            },
        }
    }

    /// A copy of this session.
    pub fn copy(&self) -> (r: Session)
        ensures
            r@ == self@,
    {
        Session {
            intent: self.intent.copy(),
            start: self.start,
            end: self.end,
            note: clone_opt(&self.note),
        }
    }
}

impl Clone for Session {
    fn clone(&self) -> (r: Session)
        ensures
            r@ == self@,
    {
        self.copy()
    }
}

/// Two sessions are the same when their intents are and the rest is equal.
pub open spec fn same_session(a: SessionView, b: SessionView) -> bool {
    crate::intent::same_intent(a.intent, b.intent) && a.start == b.start && a.end == b.end
        && a.note == b.note
}

impl PartialEq for Session {
    fn eq(&self, o: &Session) -> (r: bool)
        ensures
            r == same_session(self@, o@),
    {
        self.intent.same_as(&o.intent) && self.start == o.start && self.end == o.end
            && crate::intent::opt_eq(&self.note, &o.note)
    }
}

impl vstd::std_specs::cmp::PartialEqSpecImpl for Session {
    open spec fn obeys_eq_spec() -> bool {
        true
    }

    open spec fn eq_spec(&self, o: &Session) -> bool {
        same_session(self@, o@)
    }
}

impl Eq for Session {}

} // verus!
