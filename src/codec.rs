use vstd::prelude::*;

use crate::intent::{opt_view, strings_view};
use crate::layout::{lay_out, laid_out, lines_view};
use crate::log::{Log, LogView, sessions_view};
use crate::session::{Session, SessionView};
use crate::text::{decimal, from_chars, push_all, push_decimal, push_str, push_two_digits, two_digits};
use crate::time::{clock_text, date_has_dst_event, has_dst_event, push_clock, Date};

verus! {

/// `n` followed by the singular or plural word.
pub open spec fn amount(n: int, one: Seq<char>, many: Seq<char>) -> Seq<char> {
    decimal(n as nat) + " "@ + if n == 1 {
        one
    } else {
        many
    }
}

/// A number of seconds in words: "2 hours, 15 minutes and 45 seconds", with
/// zero parts left out and the last two parts joined by "and".
pub open spec fn duration_text(t: int) -> Seq<char> {
    if t < 0 {
        let s = (-t) % 60;
        if s == 0 {
            "0 seconds"@
        } else {
            "-"@ + decimal(s as nat) + " seconds"@
        }
    } else {
        let h = t / 3600;
        let m = (t % 3600) / 60;
        let s = t % 60;
        let hs = amount(h, "hour"@, "hours"@);
        let ms = amount(m, "minute"@, "minutes"@);
        let ss = amount(s, "second"@, "seconds"@);
        if h > 0 {
            if m > 0 {
                if s > 0 {
                    hs + ", "@ + ms + " and "@ + ss
                } else {
                    hs + " and "@ + ms
                }
            } else if s > 0 {
                hs + " and "@ + ss
            } else {
                hs
            }
        } else if m > 0 {
            if s > 0 {
                ms + " and "@ + ss
            } else {
                ms
            }
        } else {
            ss
        }
    }
}

fn push_amount(out: &mut Vec<char>, n: u64, one: &str, many: &str)
    ensures
        final(out)@ == old(out)@ + amount(n as int, one@, many@),
{
    let ghost start = out@;
    push_decimal(out, n);
    push_str(out, " ");
    if n == 1 {
        push_str(out, one);
    } else {
        push_str(out, many);
    }
    assert(out@ =~= start + amount(n as int, one@, many@));
}

fn push_duration(out: &mut Vec<char>, t: i64)
    ensures
        final(out)@ == old(out)@ + duration_text(t as int),
{
    let ghost start = out@;
    if t < 0 {
        let s: u64 = ((-(t as i128)) % 60) as u64;
        if s == 0 {
            push_str(out, "0 seconds");
        } else {
            push_str(out, "-");
            push_decimal(out, s);
            push_str(out, " seconds");
        }
        assert(out@ =~= start + duration_text(t as int));
        return ;
    }
    let u = t as u64;
    let h = u / 3600;
    let m = (u % 3600) / 60;
    let s = u % 60;
    if h > 0 {
        push_amount(out, h, "hour", "hours");
        if m > 0 {
            if s > 0 {
                push_str(out, ", ");
                push_amount(out, m, "minute", "minutes");
                push_str(out, " and ");
                push_amount(out, s, "second", "seconds");
            } else {
                push_str(out, " and ");
                push_amount(out, m, "minute", "minutes");
            }
        } else if s > 0 {
            push_str(out, " and ");
            push_amount(out, s, "second", "seconds");
        }
    } else if m > 0 {
        push_amount(out, m, "minute", "minutes");
        if s > 0 {
            push_str(out, " and ");
            push_amount(out, s, "second", "seconds");
        }
    } else {
        push_amount(out, s, "second", "seconds");
    }
    assert(out@ =~= start + duration_text(t as int));
}

/// A number of seconds in words, as a log shows the length of a session.
pub fn format_duration(seconds: i64) -> (r: String)
    ensures
        r@ == duration_text(seconds as int),
{
    let mut out: Vec<char> = Vec::new();
    push_duration(&mut out, seconds);
    assert(out@ =~= Seq::<char>::empty() + duration_text(seconds as int));
    from_chars(out.as_slice())
}

/// What each tracker id is called, as (id, label) pairs.
pub open spec fn labels_view(v: Seq<(String, String)>) -> Seq<(Seq<char>, Seq<char>)> {
    v.map_values(|p: (String, String)| (p.0@, p.1@))
}

/// The label of the first pair with this id.
pub open spec fn label_of(ls: Seq<(Seq<char>, Seq<char>)>, id: Seq<char>) -> Option<Seq<char>>
    decreases ls.len(),
{
    if ls.len() == 0 {
        None
    } else if ls[0].0 == id {
        Some(ls[0].1)
    } else {
        label_of(ls.drop_first(), id)
    }
}

pub open spec fn quoted(v: Seq<char>) -> Seq<char> {
    "\""@ + v + "\""@
}

/// `key = "value"`.
pub open spec fn kv(k: Seq<char>, v: Seq<char>) -> Seq<char> {
    k + " = "@ + quoted(v)
}

pub open spec fn opt_line(k: Seq<char>, o: Option<Seq<char>>) -> Seq<Seq<char>> {
    match o {
        Some(v) => seq![kv(k, v)],
        None => Seq::empty(),
    }
}

/// A line followed by a comment with the tracker's label, if it has one.
pub open spec fn labelled(line: Seq<char>, label: Option<Seq<char>>) -> Seq<char> {
    match label {
        Some(n) => line + " # "@ + n,
        None => line,
    }
}

pub open spec fn tracker_item(t: Seq<char>, ls: Seq<(Seq<char>, Seq<char>)>) -> Seq<char> {
    labelled("   "@ + quoted(t) + ","@, label_of(ls, t))
}

/// One tracker stands inline; several make a list, one per line.
pub open spec fn tracker_lines(ts: Seq<Seq<char>>, ls: Seq<(Seq<char>, Seq<char>)>) -> Seq<
    Seq<char>,
> {
    if ts.len() == 0 {
        Seq::empty()
    } else if ts.len() == 1 {
        seq![labelled(kv("trackers"@, ts[0]), label_of(ls, ts[0]))]
    } else {
        seq!["trackers = ["@] + ts.map_values(|t: Seq<char>| tracker_item(t, ls)) + seq!["]"@]
    }
}

/// The lines of a session's intent.
pub open spec fn intent_lines(s: SessionView, ls: Seq<(Seq<char>, Seq<char>)>) -> Seq<Seq<char>> {
    opt_line("alias"@, s.intent.alias) + opt_line("role"@, s.intent.role) + opt_line(
        "objective"@,
        s.intent.objective,
    ) + opt_line("action"@, s.intent.action) + opt_line("subject"@, s.intent.subject)
        + tracker_lines(s.intent.trackers, ls)
}

/// The start, and the end with the derived duration if the session has ended.
pub open spec fn time_lines(s: SessionView, z: bool) -> Seq<Seq<char>> {
    seq![kv("start"@, clock_text(s.start, z))] + match s.end {
        Some(e) => seq![
            kv("end"@, clock_text(e, z)),
            kv("--duration"@, duration_text(e.utc - s.start.utc)),
        ],
        None => Seq::empty(),
    }
}

/// The note, unless it is absent or empty.
pub open spec fn note_lines(s: SessionView) -> Seq<Seq<char>> {
    match s.note {
        Some(n) => if n.len() > 0 {
            seq![kv("note"@, n)]
        } else {
            Seq::empty()
        },
        None => Seq::empty(),
    }
}

/// The lines of one session's block.
pub open spec fn session_lines(s: SessionView, ls: Seq<(Seq<char>, Seq<char>)>, z: bool) -> Seq<
    Seq<char>,
> {
    seq![""@, "[[timeline]]"@] + intent_lines(s, ls) + time_lines(s, z) + note_lines(s)
}

/// The blocks of the sessions, in order.
pub open spec fn blocks(ss: Seq<SessionView>, ls: Seq<(Seq<char>, Seq<char>)>, z: bool) -> Seq<
    Seq<char>,
>
    decreases ss.len(),
{
    if ss.len() == 0 {
        Seq::empty()
    } else {
        blocks(ss.drop_last(), ls, z) + session_lines(ss.last(), ls, z)
    }
}

/// `s` with `x` placed after every session that starts no later than it.
pub open spec fn insert_by_start(s: Seq<SessionView>, x: SessionView) -> Seq<SessionView>
    decreases s.len(),
{
    if s.len() == 0 {
        seq![x]
    } else if s.last().start.utc <= x.start.utc {
        s.push(x)
    } else {
        insert_by_start(s.drop_last(), x).push(s.last())
    }
}

/// The sessions ordered by start, those that start together kept in their order.
pub open spec fn sort_by_start(s: Seq<SessionView>) -> Seq<SessionView>
    decreases s.len(),
{
    if s.len() == 0 {
        Seq::empty()
    } else {
        insert_by_start(sort_by_start(s.drop_last()), s.last())
    }
}

pub open spec fn date_text(d: Date) -> Seq<char> {
    two_digits(d.year / 100) + two_digits((d.year % 100) as int) + "-"@ + two_digits(d.month as int) + "-"@
        + two_digits(d.day as int)
}

pub open spec fn header_lines(l: LogView, z: bool) -> Seq<Seq<char>> {
    seq![
        "# This is a Faff-format log file - see faffage.com for details."@,
        "# It has been generated but can be edited manually."@,
        "# Changes to rows starting with '#' will not be saved."@,
        kv("version"@, "1.1"@),
        kv("date"@, date_text(l.date)),
        kv("timezone"@, l.timezone),
        kv(
            "--date_format"@,
            if z {
                "HH:mmZ"@
            } else {
                "HH:mm"@
            },
        ),
    ]
}

/// The lines of a log before derived values become comments and keys are aligned.
pub open spec fn raw_lines(l: LogView, ls: Seq<(Seq<char>, Seq<char>)>) -> Seq<Seq<char>> {
    let z = has_dst_event(l.date, l.timezone);
    header_lines(l, z) + if l.timeline.len() == 0 {
        seq![""@, "# Timeline is empty."@]
    } else {
        blocks(sort_by_start(l.timeline), ls, z)
    }
}

/// The text of a log.
pub open spec fn log_text(l: LogView, ls: Seq<(Seq<char>, Seq<char>)>) -> Seq<char> {
    laid_out(raw_lines(l, ls))
}

fn line_of(s: &str) -> (r: Vec<char>)
    ensures
        r@ == s@,
{
    let mut v: Vec<char> = Vec::new();
    push_str(&mut v, s);
    assert(v@ =~= s@);
    v
}

/// `key = "value"`.
fn kv_line(k: &str, v: &Vec<char>) -> (r: Vec<char>)
    ensures
        r@ == kv(k@, v@),
{
    let mut out: Vec<char> = Vec::new();
    push_str(&mut out, k);
    push_str(&mut out, " = \"");
    push_all(&mut out, v);
    push_str(&mut out, "\"");
    proof {
        reveal_strlit(" = \"");
        reveal_strlit(" = ");
        reveal_strlit("\"");
    }
    assert(out@ =~= kv(k@, v@));
    out
}

fn push_opt_line(lines: &mut Vec<Vec<char>>, k: &str, o: &Option<String>)
    ensures
        lines_view(final(lines)@) == lines_view(old(lines)@) + opt_line(k@, opt_view(*o)),
{
    let ghost before = lines_view(lines@);
    match o {
        Some(v) => {
            let vc = crate::text::to_chars(v.as_str());
            let line = kv_line(k, &vc);
            lines.push(line);
            assert(lines_view(lines@) =~= before + opt_line(k@, opt_view(*o)));
        },
        None => {
            assert(lines_view(lines@) =~= before + opt_line(k@, opt_view(*o)));
        },
    }
}

/// The label of the first pair with this id.
fn find_label<'a>(labels: &'a Vec<(String, String)>, id: &String) -> (r: Option<&'a String>)
    ensures
        r matches Some(n) ==> label_of(labels_view(labels@), id@) == Some(n@),
        r is None ==> label_of(labels_view(labels@), id@) is None,
{
    let ghost all = labels_view(labels@);
    assert(all.subrange(0, all.len() as int) =~= all);
    let mut i: usize = 0;
    while i < labels.len()
        invariant
            i <= labels.len(),
            all == labels_view(labels@),
            label_of(all, id@) == label_of(all.subrange(i as int, all.len() as int), id@),
        decreases labels.len() - i,
    {
        let ghost rest = all.subrange(i as int, all.len() as int);
        assert(rest[0] == (labels@[i as int].0@, labels@[i as int].1@));
        if labels[i].0 == *id {
            return Some(&labels[i].1);
        }
        assert(rest.drop_first() =~= all.subrange(i + 1, all.len() as int));
        i = i + 1;
    }
    None
}

fn with_label(line: Vec<char>, label: Option<&String>) -> (r: Vec<char>)
    ensures
        r@ == labelled(
            line@,
            match label {
                Some(n) => Some(n@),
                None => None,
            },
        ),
{
    let mut out = line;
    match label {
        Some(n) => {
            let ghost before = out@;
            push_str(&mut out, " # ");
            push_str(&mut out, n.as_str());
            assert(out@ =~= before + " # "@ + n@);
        },
        None => {},
    }
    out
}

fn push_tracker_lines(
    lines: &mut Vec<Vec<char>>,
    ts: &Vec<String>,
    labels: &Vec<(String, String)>,
)
    ensures
        lines_view(final(lines)@) == lines_view(old(lines)@) + tracker_lines(
            strings_view(*ts),
            labels_view(labels@),
        ),
{
    let ghost before = lines_view(lines@);
    let ghost tv = strings_view(*ts);
    let ghost ls = labels_view(labels@);
    if ts.len() == 0 {
        assert(lines_view(lines@) =~= before + tracker_lines(tv, ls));
    } else if ts.len() == 1 {
        let vc = crate::text::to_chars(ts[0].as_str());
        let line = with_label(kv_line("trackers", &vc), find_label(labels, &ts[0]));
        lines.push(line);
        assert(lines_view(lines@) =~= before + tracker_lines(tv, ls));
    } else {
        lines.push(line_of("trackers = ["));
        let mut i: usize = 0;
        while i < ts.len()
            invariant
                i <= ts.len(),
                tv == strings_view(*ts),
                ls == labels_view(labels@),
                lines_view(lines@) == before + seq!["trackers = ["@] + tv.subrange(
                    0,
                    i as int,
                ).map_values(|t: Seq<char>| tracker_item(t, ls)),
            decreases ts.len() - i,
        {
            let ghost prev = lines_view(lines@);
            let mut item: Vec<char> = Vec::new();
            push_str(&mut item, "   \"");
            push_str(&mut item, ts[i].as_str());
            push_str(&mut item, "\",");
            proof {
                reveal_strlit("   \"");
                reveal_strlit("   ");
                reveal_strlit("\",");
                reveal_strlit("\"");
                reveal_strlit(",");
            }
            assert(item@ =~= "   "@ + quoted(tv[i as int]) + ","@);
            let line = with_label(item, find_label(labels, &ts[i]));
            lines.push(line);
            assert(lines_view(lines@) =~= prev.push(tracker_item(tv[i as int], ls)));
            assert(tv.subrange(0, i + 1).map_values(|t: Seq<char>| tracker_item(t, ls))
                =~= tv.subrange(0, i as int).map_values(|t: Seq<char>| tracker_item(t, ls)).push(
                tracker_item(tv[i as int], ls),
            ));
            i = i + 1;
        }
        let ghost prev = lines_view(lines@);
        lines.push(line_of("]"));
        assert(lines_view(lines@) =~= prev.push("]"@));
        assert(tv.subrange(0, ts.len() as int) =~= tv);
        assert(tv.map_values(|t: Seq<char>| tracker_item(t, ls)) =~= tv.subrange(
            0,
            ts.len() as int,
        ).map_values(|t: Seq<char>| tracker_item(t, ls)));
        assert(lines_view(lines@) =~= before + tracker_lines(tv, ls));
    }
}

fn push_intent_lines(lines: &mut Vec<Vec<char>>, s: &Session, labels: &Vec<(String, String)>)
    ensures
        lines_view(final(lines)@) == lines_view(old(lines)@) + intent_lines(
            s@,
            labels_view(labels@),
        ),
{
    let ghost before = lines_view(lines@);
    push_opt_line(lines, "alias", &s.intent.alias);
    push_opt_line(lines, "role", &s.intent.role);
    push_opt_line(lines, "objective", &s.intent.objective);
    push_opt_line(lines, "action", &s.intent.action);
    push_opt_line(lines, "subject", &s.intent.subject);
    push_tracker_lines(lines, &s.intent.trackers, labels);
    assert(lines_view(lines@) =~= before + intent_lines(s@, labels_view(labels@)));
}

fn push_time_lines(lines: &mut Vec<Vec<char>>, s: &Session, z: bool)
    requires
        s@.wf(),
    ensures
        lines_view(final(lines)@) == lines_view(old(lines)@) + time_lines(s@, z),
{
    let ghost before = lines_view(lines@);
    let mut st: Vec<char> = Vec::new();
    push_clock(&mut st, &s.start, z);
    assert(st@ =~= clock_text(s.start, z));
    lines.push(kv_line("start", &st));
    match s.end {
        Some(e) => {
            let mut et: Vec<char> = Vec::new();
            push_clock(&mut et, &e, z);
            assert(et@ =~= clock_text(e, z));
            lines.push(kv_line("end", &et));
            let mut dt: Vec<char> = Vec::new();
            push_duration(&mut dt, e.utc - s.start.utc);
            assert(dt@ =~= duration_text(e.utc - s.start.utc));
            lines.push(kv_line("--duration", &dt));
        },
        None => {},
    }
    assert(lines_view(lines@) =~= before + time_lines(s@, z));
}

fn push_note_line(lines: &mut Vec<Vec<char>>, s: &Session)
    ensures
        lines_view(final(lines)@) == lines_view(old(lines)@) + note_lines(s@),
{
    let ghost before = lines_view(lines@);
    match &s.note {
        Some(n) => {
            let nc = crate::text::to_chars(n.as_str());
            if nc.len() > 0 {
                lines.push(kv_line("note", &nc));
            }
        },
        None => {},
    }
    assert(lines_view(lines@) =~= before + note_lines(s@));
}

fn push_session_lines(
    lines: &mut Vec<Vec<char>>,
    s: &Session,
    labels: &Vec<(String, String)>,
    z: bool,
)
    requires
        s@.wf(),
    ensures
        lines_view(final(lines)@) == lines_view(old(lines)@) + session_lines(
            s@,
            labels_view(labels@),
            z,
        ),
{
    let ghost before = lines_view(lines@);
    let ghost ls = labels_view(labels@);
    lines.push(line_of(""));
    lines.push(line_of("[[timeline]]"));
    assert(lines_view(lines@) =~= before + seq![""@, "[[timeline]]"@]);
    push_intent_lines(lines, s, labels);
    push_time_lines(lines, s, z);
    push_note_line(lines, s);
    assert(lines_view(lines@) =~= before + session_lines(s@, ls, z));
}

/// Places `x` after every session of `v` that starts no later than it.
fn insert_session(v: &mut Vec<Session>, x: Session)
    ensures
        sessions_view(final(v)@) == insert_by_start(sessions_view(old(v)@), x@),
{
    let ghost sv = sessions_view(v@);
    let mut p = v.len();
    while p > 0 && v[p - 1].start.utc > x.start.utc
        invariant
            p <= v.len(),
            sv == sessions_view(v@),
            forall|j: int| p <= j < v.len() ==> (#[trigger] sv[j]).start.utc > x.start.utc,
        decreases p,
    {
        p = p - 1;
    }
    proof {
        lemma_insert_at(sv, x@, p as int);
    }
    let ghost xv = x@;
    v.insert(p, x);
    assert(sessions_view(v@) =~= sv.insert(p as int, xv));
}

proof fn lemma_insert_at(s: Seq<SessionView>, x: SessionView, p: int)
    requires
        0 <= p <= s.len(),
        forall|j: int| p <= j < s.len() ==> (#[trigger] s[j]).start.utc > x.start.utc,
        p == 0 || s[p - 1].start.utc <= x.start.utc,
    ensures
        insert_by_start(s, x) == s.insert(p, x),
    decreases s.len(),
{
    if s.len() == 0 {
        assert(s.insert(p, x) =~= seq![x]);
    } else if s.last().start.utc <= x.start.utc {
        assert(s.insert(p, x) =~= s.push(x));
    } else {
        lemma_insert_at(s.drop_last(), x, p);
        assert(s.insert(p, x) =~= s.drop_last().insert(p, x).push(s.last()));
    }
}

fn sorted_sessions(tl: &Vec<Session>) -> (r: Vec<Session>)
    ensures
        sessions_view(r@) == sort_by_start(sessions_view(tl@)),
{
    let ghost all = sessions_view(tl@);
    let mut r: Vec<Session> = Vec::new();
    let mut i: usize = 0;
    while i < tl.len()
        invariant
            i <= tl.len(),
            all == sessions_view(tl@),
            sessions_view(r@) == sort_by_start(all.subrange(0, i as int)),
        decreases tl.len() - i,
    {
        let c = tl[i].copy();
        insert_session(&mut r, c);
        assert(all.subrange(0, i + 1).drop_last() =~= all.subrange(0, i as int));
        i = i + 1;
    }
    assert(all.subrange(0, tl.len() as int) =~= all);
    r
}

proof fn lemma_insert_len(s: Seq<SessionView>, x: SessionView)
    ensures
        insert_by_start(s, x).len() == s.len() + 1,
    decreases s.len(),
{
    if s.len() > 0 && s.last().start.utc > x.start.utc {
        lemma_insert_len(s.drop_last(), x);
    }
}

proof fn lemma_insert_keeps(s: Seq<SessionView>, x: SessionView, k: int)
    requires
        0 <= k < insert_by_start(s, x).len(),
    ensures
        insert_by_start(s, x).len() == s.len() + 1,
        insert_by_start(s, x)[k] == x || s.contains(insert_by_start(s, x)[k]),
    decreases s.len(),
{
    lemma_insert_len(s, x);
    if s.len() == 0 {
    } else if s.last().start.utc <= x.start.utc {
        if k < s.len() {
            assert(s.push(x)[k] == s[k]);
        }
    } else {
        let t = insert_by_start(s.drop_last(), x);
        lemma_insert_len(s.drop_last(), x);
        if k < s.len() {
            lemma_insert_keeps(s.drop_last(), x, k);
            if t[k] != x {
                let j = choose|j: int| 0 <= j < s.drop_last().len() && s.drop_last()[j] == t[k];
                assert(s[j] == t[k]);
            }
        } else {
            lemma_insert_keeps(s.drop_last(), x, 0);
            assert(s[s.len() - 1] == s.last());
        }
    }
}

/// Sorting by start keeps the sessions: each one of the result is one of the input.
pub proof fn lemma_sort_keeps(s: Seq<SessionView>)
    ensures
        sort_by_start(s).len() == s.len(),
        forall|k: int| 0 <= k < s.len() ==> s.contains(#[trigger] sort_by_start(s)[k]),
    decreases s.len(),
{
    if s.len() > 0 {
        lemma_sort_keeps(s.drop_last());
        let t = sort_by_start(s.drop_last());
        lemma_insert_keeps(t, s.last(), 0);
        assert forall|k: int| 0 <= k < s.len() implies s.contains(#[trigger] sort_by_start(s)[k]) by {
            lemma_insert_keeps(t, s.last(), k);
            let y = sort_by_start(s)[k];
            if y == s.last() {
                assert(s[s.len() - 1] == y);
            } else {
                let j = choose|j: int| 0 <= j < t.len() && t[j] == y;
                let i = choose|i: int| 0 <= i < s.drop_last().len() && s.drop_last()[i] == t[j];
                assert(s[i] == y);
            }
        }
    }
}

pub fn push_date_text(out: &mut Vec<char>, d: Date)
    requires
        d.wf(),
    ensures
        final(out)@ == old(out)@ + date_text(d),
{
    let ghost before = out@;
    let y = d.year as u32;
    push_two_digits(out, y / 100);
    push_two_digits(out, y % 100);
    out.push('-');
    push_two_digits(out, d.month);
    out.push('-');
    push_two_digits(out, d.day);
    proof {
        reveal_strlit("-");
    }
    assert(out@ =~= before + date_text(d));
}

impl Log {
    /// The lines of the log's text before derived values become comments.
    fn raw_log_lines(&self, trackers: &Vec<(String, String)>) -> (r: Vec<Vec<char>>)
        requires
            self.wf(),
        ensures
            lines_view(r@) == raw_lines(self@, labels_view(trackers@)),
    {
        let ghost ls = labels_view(trackers@);
        let z = date_has_dst_event(self.date, self.timezone.as_str());
        let mut lines: Vec<Vec<char>> = Vec::new();
        lines.push(line_of("# This is a Faff-format log file - see faffage.com for details."));
        lines.push(line_of("# It has been generated but can be edited manually."));
        lines.push(line_of("# Changes to rows starting with '#' will not be saved."));
        lines.push(kv_line("version", &line_of("1.1")));
        let mut dt: Vec<char> = Vec::new();
        push_date_text(&mut dt, self.date);
        assert(dt@ =~= date_text(self.date));
        lines.push(kv_line("date", &dt));
        lines.push(kv_line("timezone", &crate::text::to_chars(self.timezone.as_str())));
        let fmt = if z {
            line_of("HH:mmZ")
        } else {
            line_of("HH:mm")
        };
        lines.push(kv_line("--date_format", &fmt));
        assert(lines_view(lines@) =~= header_lines(self@, z));
        if self.timeline.len() == 0 {
            lines.push(line_of(""));
            lines.push(line_of("# Timeline is empty."));
            assert(lines_view(lines@) =~= raw_lines(self@, ls));
            return lines;
        }
        let sorted = self.sorted_timeline();
        let ghost ss = sessions_view(sorted@);
        let ghost head = lines_view(lines@);
        let mut i: usize = 0;
        while i < sorted.len()
            invariant
                i <= sorted.len(),
                ss == sessions_view(sorted@),
                ls == labels_view(trackers@),
                forall|k: int| 0 <= k < ss.len() ==> (#[trigger] ss[k]).wf(),
                lines_view(lines@) == head + blocks(ss.subrange(0, i as int), ls, z),
            decreases sorted.len() - i,
        {
            assert(ss[i as int].wf());
            push_session_lines(&mut lines, &sorted[i], trackers, z);
            assert(ss.subrange(0, i + 1).drop_last() =~= ss.subrange(0, i as int));
            i = i + 1;
            assert(lines_view(lines@) =~= head + blocks(ss.subrange(0, i as int), ls, z));
        }
        assert(ss.subrange(0, sorted.len() as int) =~= ss);
        lines
    }

    fn sorted_timeline(&self) -> (r: Vec<Session>)
        requires
            self.wf(),
        ensures
            sessions_view(r@) == sort_by_start(self@.timeline),
            forall|k: int| 0 <= k < r.len() ==> (#[trigger] sessions_view(r@)[k]).wf(),
    {
        let r = sorted_sessions(&self.timeline);
        proof {
            lemma_sort_keeps(self@.timeline);
            assert forall|k: int| 0 <= k < r.len() implies (#[trigger] sessions_view(r@)[k]).wf() by {
                let y = sessions_view(r@)[k];
                let j = choose|j: int| 0 <= j < self@.timeline.len() && self@.timeline[j] == y;
                assert(self.timeline@[j]@.wf());
            }
        }
        r
    }

    /// The log as text: header, metadata, then one block per session in order
    /// of start; derived values (date format, durations) are comments and the
    /// `key = value` lines are aligned. `trackers` labels tracker ids.
    pub fn to_log_file(&self, trackers: &Vec<(String, String)>) -> (r: String)
        requires
            self.wf(),
        ensures
            r@ == log_text(self@, labels_view(trackers@)),
    {
        let lines = self.raw_log_lines(trackers);
        let out = lay_out(&lines);
        from_chars(out.as_slice())
    }
}

} // verus!
