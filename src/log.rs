use vstd::prelude::*;

use crate::session::{Session, SessionView};
use crate::time::{resolve, resolve_spec, Date, TimeError, ZonedTime};

verus! {

/// Why an operation on a log failed.
#[derive(Clone, Copy, Debug, PartialEq, Eq, Structural)]
pub enum LogError {
    /// There is no session to stop.
    NoTimelineEntries,
    /// The log's zone name is not known.
    UnknownTimezone,
    /// The end of the log's day falls in a fold or a gap of its zone.
    AmbiguousDatetime,
}

/// The sessions of one day, in a zone.
#[derive(Debug)]
pub struct Log {
    pub date: Date,
    pub timezone: String,
    pub timeline: Vec<Session>,
}

pub struct LogView {
    pub date: Date,
    pub timezone: Seq<char>,
    pub timeline: Seq<SessionView>,
}

pub open spec fn sessions_view(v: Seq<Session>) -> Seq<SessionView> {
    v.map_values(|s: Session| s@)
}

impl View for Log {
    type V = LogView;

    open spec fn view(&self) -> LogView {
        LogView { date: self.date, timezone: self.timezone@, timeline: sessions_view(self.timeline@) }
    }
}

/// The last session if it is open.
pub open spec fn active_of(tl: Seq<SessionView>) -> Option<SessionView> {
    if tl.len() > 0 && tl.last().is_open() {
        Some(tl.last())
    } else {
        None
    }
}

/// The timeline with its last session's end set to `t`.
pub open spec fn stop_spec(tl: Seq<SessionView>, t: ZonedTime) -> Result<Seq<SessionView>, LogError> {
    if tl.len() == 0 {
        Err(LogError::NoTimelineEntries)
    } else {
        Ok(tl.update(tl.len() - 1, tl.last().ended(t)))
    }
}

/// The timeline after `s` is appended, the open session first stopped at its start.
pub open spec fn append_spec(tl: Seq<SessionView>, s: SessionView) -> Seq<SessionView> {
    if active_of(tl) is Some {
        tl.update(tl.len() - 1, tl.last().ended(s.start)).push(s)
    } else {
        tl.push(s)
    }
}

/// No session but the last is open.
pub open spec fn at_most_last_open(tl: Seq<SessionView>) -> bool {
    forall|i: int| 0 <= i < tl.len() - 1 ==> (#[trigger] tl[i]).end is Some
}

pub open spec fn all_closed(tl: Seq<SessionView>) -> bool {
    forall|i: int| 0 <= i < tl.len() ==> (#[trigger] tl[i]).end is Some
}

/// A change made to a log's timeline.
pub enum LogStep {
    Append(SessionView),
    Stop(ZonedTime),
}

/// The timeline after one step; a stop that fails leaves it as it was.
pub open spec fn apply_step(tl: Seq<SessionView>, step: LogStep) -> Seq<SessionView> {
    match step {
        LogStep::Append(s) => append_spec(tl, s),
        LogStep::Stop(t) => match stop_spec(tl, t) {
            Ok(n) => n,
            Err(_) => tl,
        },
    }
}

/// The timeline after the steps, in order, from `tl`.
pub open spec fn run_steps(tl: Seq<SessionView>, steps: Seq<LogStep>) -> Seq<SessionView>
    decreases steps.len(),
{
    if steps.len() == 0 {
        tl
    } else {
        apply_step(run_steps(tl, steps.drop_last()), steps.last())
    }
}

/// Whatever appends and stops are made, starting from an empty timeline, at
/// most the last session is open.
pub proof fn lemma_single_open(steps: Seq<LogStep>)
    ensures
        at_most_last_open(run_steps(Seq::empty(), steps)),
    decreases steps.len(),
{
    if steps.len() > 0 {
        lemma_single_open(steps.drop_last());
        lemma_step_keeps_single_open(run_steps(Seq::empty(), steps.drop_last()), steps.last());
    }
}

/// One append or stop keeps at most the last session open.
pub proof fn lemma_step_keeps_single_open(tl: Seq<SessionView>, step: LogStep)
    requires
        at_most_last_open(tl),
    ensures
        at_most_last_open(apply_step(tl, step)),
{
    match step {
        LogStep::Append(s) => {
            let n = append_spec(tl, s);
            assert forall|i: int| 0 <= i < n.len() - 1 implies (#[trigger] n[i]).end is Some by {
                if i == tl.len() - 1 {
                } else {
                    assert(n[i] == tl[i]);
                }
            }
        },
        LogStep::Stop(t) => {
            if tl.len() > 0 {
                let n = tl.update(tl.len() - 1, tl.last().ended(t));
                assert forall|i: int| 0 <= i < n.len() - 1 implies (#[trigger] n[i]).end is Some by {
                    assert(n[i] == tl[i]);
                }
            }
        },
    }
}

/// The seconds recorded by a timeline; an open session runs to `open_end`.
pub open spec fn recorded(tl: Seq<SessionView>, open_end: int) -> int
    decreases tl.len(),
{
    if tl.len() == 0 {
        0
    } else {
        recorded(tl.drop_last(), open_end) + match tl.last().end {
            Some(e) => e.utc - tl.last().start.utc,
            None => open_end - tl.last().start.utc,
        }
    }
}

pub open spec fn time_error_to_log(e: TimeError) -> LogError {
    match e {
        TimeError::UnknownTimezone => LogError::UnknownTimezone,
        _ => LogError::AmbiguousDatetime,
    }
}

/// The total that `total_recorded_time` owes: an open session runs to `now`
/// on `today`, and to 23:59:59 local time on an earlier day.
pub open spec fn total_spec(l: LogView, today: Date, now: ZonedTime) -> Result<int, LogError> {
    if all_closed(l.timeline) {
        Ok(recorded(l.timeline, 0))
    } else if l.date == today {
        Ok(recorded(l.timeline, now.utc as int))
    } else {
        match resolve_spec(l.timezone, l.date, 86399) {
            Ok(eod) => Ok(recorded(l.timeline, eod.utc as int)),
            Err(e) => Err(time_error_to_log(e)),
        }
    }
}

/// Largest number of sessions whose total is computed.
pub const MAX_SESSIONS: usize = 1000000;

proof fn lemma_recorded_bound(tl: Seq<SessionView>, open_end: int)
    requires
        forall|i: int| 0 <= i < tl.len() ==> (#[trigger] tl[i]).wf(),
        -400000000000 <= open_end <= 400000000000,
    ensures
        -(tl.len() as int) * 800000000000 <= recorded(tl, open_end) <= (tl.len() as int)
            * 800000000000,
    decreases tl.len(),
{
    if tl.len() > 0 {
        assert(tl.last().wf());
        lemma_recorded_bound(tl.drop_last(), open_end);
    }
}

impl Log {
    pub open spec fn wf(&self) -> bool {
        self.date.wf() && forall|i: int|
            0 <= i < self.timeline.len() ==> (#[trigger] self.timeline@[i])@.wf()
    }

    pub fn new(date: Date, timezone: String, timeline: Vec<Session>) -> (r: Log)
        ensures
            r.date == date,
            r.timezone == timezone,
            r.timeline == timeline,
    {
        Log { date, timezone, timeline }
    }

    /// The open session, if the last one is open.
    pub fn active_session(&self) -> (r: Option<&Session>)
        ensures
            r matches Some(s) ==> active_of(self@.timeline) == Some(s@),
            r is None ==> active_of(self@.timeline) is None,
    {
        if self.timeline.len() == 0 {
            return None;
        }
        let last = &self.timeline[self.timeline.len() - 1];
        if last.end.is_none() {
            Some(last)
        } else {
            None
        }
    }

    /// A copy of the timeline.
    fn copy_timeline(&self) -> (r: Vec<Session>)
        ensures
            sessions_view(r@) == self@.timeline,
    {
        let mut r: Vec<Session> = Vec::new();
        let mut i: usize = 0;
        while i < self.timeline.len()
            invariant
                i <= self.timeline.len(),
                sessions_view(r@) == self@.timeline.subrange(0, i as int),
            decreases self.timeline.len() - i,
        {
            let ghost before = r@;
            let c = self.timeline[i].copy();
            r.push(c);
            assert(sessions_view(r@) =~= sessions_view(before).push(c@));
            i = i + 1;
            assert(sessions_view(r@) =~= self@.timeline.subrange(0, i as int));
        }
        assert(self@.timeline.subrange(0, self.timeline.len() as int) =~= self@.timeline);
        r
    }

    /// A new log whose last session ends at `stop_time`; this log is left as it is.
    pub fn stop_active_session(&self, stop_time: ZonedTime) -> (r: Result<Log, LogError>)
        ensures
            self@.timeline.len() == 0 ==> r == Err::<Log, LogError>(LogError::NoTimelineEntries),
            self@.timeline.len() > 0 ==> (r matches Ok(l) && l.date == self.date && l.timezone
                == self.timezone && stop_spec(self@.timeline, stop_time) == Ok::<
                Seq<SessionView>,
                LogError,
            >(l@.timeline)),
    {
        if self.timeline.len() == 0 {
            return Err(LogError::NoTimelineEntries);
        }
        let mut tl = self.copy_timeline();
        let last = tl.len() - 1;
        let ended = tl[last].with_end(stop_time);
        tl.set(last, ended);
        assert(sessions_view(tl@) =~= self@.timeline.update(
            last as int,
            self@.timeline.last().ended(stop_time),
        ));
        Ok(Log { date: self.date, timezone: self.timezone.clone(), timeline: tl })
    }

    /// A new log with `session` appended; an open session is first stopped
    /// at the new session's start. This log is left as it is.
    pub fn append_session(&self, session: Session) -> (r: Result<Log, LogError>)
        ensures
            r matches Ok(l) && l.date == self.date && l.timezone == self.timezone
                && l@.timeline == append_spec(self@.timeline, session@),
            active_of(self@.timeline) is Some ==> (r matches Ok(l) && l@.timeline.len()
                == self@.timeline.len() + 1 && l@.timeline[self@.timeline.len() - 1].end == Some(
                session.start,
            ) && l@.timeline.last() == session@),
    {
        let ghost sv = session@;
        if self.active_session().is_some() {
            let stopped = self.stop_active_session(session.start);
            match stopped {
                Ok(l) => {
                    let mut tl = l.timeline;
                    tl.push(session);
                    assert(sessions_view(tl@) =~= sessions_view(l.timeline@).push(sv));
                    Ok(Log { date: l.date, timezone: l.timezone, timeline: tl })
                },
                Err(e) => Err(e),
            }
        } else {
            let mut tl = self.copy_timeline();
            let ghost before = tl@;
            tl.push(session);
            assert(sessions_view(tl@) =~= sessions_view(before).push(sv));
            Ok(Log { date: self.date, timezone: self.timezone.clone(), timeline: tl })
        }
    }

    /// Whether every session has ended.
    pub fn is_closed(&self) -> (r: bool)
        ensures
            r == all_closed(self@.timeline),
    {
        let mut i: usize = 0;
        while i < self.timeline.len()
            invariant
                i <= self.timeline.len(),
                forall|j: int| 0 <= j < i ==> (#[trigger] self@.timeline[j]).end is Some,
            decreases self.timeline.len() - i,
        {
            if self.timeline[i].end.is_none() {
                assert(self@.timeline[i as int].end is None);
                return false;
            }
            i = i + 1;
        }
        true
    }

    /// The seconds recorded in this log. An open session runs to `now` when the
    /// log's date is `today`, and to 23:59:59 local time on an earlier date.
    pub fn total_recorded_time(&self, today: Date, now: ZonedTime) -> (r: Result<i64, LogError>)
        requires
            self.wf(),
            now.wf(),
            self.timeline.len() <= MAX_SESSIONS,
        ensures
            r matches Ok(t) ==> total_spec(self@, today, now) == Ok::<int, LogError>(t as int),
            r matches Err(e) ==> total_spec(self@, today, now) == Err::<int, LogError>(e),
    {
        let closed = self.is_closed();
        let open_end: i64 = if closed {
            0
        } else if self.date == today {
            now.utc
        } else {
            match resolve(self.timezone.as_str(), self.date, 86399) {
                Ok(eod) => eod.utc,
                Err(e) => {
                    return Err(
                        match e {
                            TimeError::UnknownTimezone => LogError::UnknownTimezone,
                            _ => LogError::AmbiguousDatetime,
                        },
                    );
                },
            }
        };
        let ghost tl = self@.timeline;
        let mut total: i64 = 0;
        let mut i: usize = 0;
        while i < self.timeline.len()
            invariant
                i <= self.timeline.len() <= MAX_SESSIONS,
                tl == self@.timeline,
                self.wf(),
                -400000000000 <= open_end <= 400000000000,
                total == recorded(tl.subrange(0, i as int), open_end as int),
            decreases self.timeline.len() - i,
        {
            let s = &self.timeline[i];
            assert(tl[i as int].wf());
            proof {
                lemma_recorded_bound(tl.subrange(0, i as int), open_end as int);
                assert(i <= MAX_SESSIONS);
                assert(-(i as int) * 800000000000 >= -800000000000000000) by (nonlinear_arith)
                    requires
                        i <= 1000000,
                ;
                assert((i as int) * 800000000000 <= 800000000000000000) by (nonlinear_arith)
                    requires
                        i <= 1000000,
                ;
            }
            let d: i64 = match s.end {
                Some(e) => e.utc - s.start.utc,
                None => open_end - s.start.utc,
            };
            total = total + d;
            i = i + 1;
            assert(tl.subrange(0, i as int).drop_last() =~= tl.subrange(0, i - 1));
        }
        assert(tl.subrange(0, tl.len() as int) =~= tl);
        Ok(total)
    }
}

} // verus!
