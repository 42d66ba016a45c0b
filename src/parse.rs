use vstd::prelude::*;

use crate::intent::{made_from, strings_view, Intent};
use crate::layout::{find_eq, find_eq_exec, trim, trimmed};
use crate::log::Log;
use crate::session::Session;
use crate::text::{digit_value, from_chars, is_digit, to_chars};
use crate::time::digit_at;
use crate::time::{read_time, read_time_spec, resolve, resolve_spec, Date, TimeError, ZonedTime};
use crate::valuetype::{ValueType, ValueView};

verus! {

/// The text split at each newline.
pub open spec fn split_lines(t: Seq<char>) -> Seq<Seq<char>>
    decreases t.len(),
{
    if t.len() == 0 {
        seq![Seq::empty()]
    } else {
        let r = split_lines(t.drop_last());
        if t.last() == '\n' {
            r.push(Seq::empty())
        } else {
            r.update(r.len() - 1, r.last().push(t.last()))
        }
    }
}

pub proof fn lemma_split_nonempty(t: Seq<char>)
    ensures
        split_lines(t).len() >= 1,
    decreases t.len(),
{
    if t.len() > 0 {
        lemma_split_nonempty(t.drop_last());
    }
}

/// The position of the next `"` from `j` on, or the length.
pub open spec fn close_quote(s: Seq<char>, j: int) -> int
    decreases s.len() - j,
{
    if j < 0 || j >= s.len() {
        s.len() as int
    } else if s[j] == '"' {
        j
    } else {
        close_quote(s, j + 1)
    }
}

/// The quoted strings of a list from `i` on, and whether a `]` closes it.
/// `q` is where the string being read starts, or -1 outside a string.
/// A `#` outside a string starts a comment; an unterminated string is dropped.
pub open spec fn scan_items(s: Seq<char>, i: int, q: int) -> (Seq<Seq<char>>, bool)
    decreases s.len() - i,
{
    if i < 0 || i >= s.len() {
        (Seq::empty(), false)
    } else if q >= 0 {
        if s[i] == '"' {
            let r = scan_items(s, i + 1, -1);
            (seq![s.subrange(q, i)] + r.0, r.1)
        } else {
            scan_items(s, i + 1, q)
        }
    } else if s[i] == ']' {
        (Seq::empty(), true)
    } else if s[i] == '#' {
        (Seq::empty(), false)
    } else if s[i] == '"' {
        scan_items(s, i + 1, i + 1)
    } else {
        scan_items(s, i + 1, -1)
    }
}

/// What has been read of a log: the fields before the first `[[timeline]]`,
/// those of each timeline block, and a list still open.
pub struct ReadState {
    pub header: Seq<(Seq<char>, ValueView)>,
    pub blocks: Seq<Seq<(Seq<char>, ValueView)>>,
    pub list: Option<(Seq<char>, Seq<Seq<char>>)>,
}

pub open spec fn add_field(st: ReadState, f: (Seq<char>, ValueView)) -> ReadState {
    if st.blocks.len() == 0 {
        ReadState { header: st.header.push(f), ..st }
    } else {
        ReadState { blocks: st.blocks.update(st.blocks.len() - 1, st.blocks.last().push(f)), ..st }
    }
}

/// One line read: comments and unknown lines change nothing.
pub open spec fn read_line(st: ReadState, line: Seq<char>) -> ReadState {
    let t = trim(line);
    match st.list {
        Some((k, items)) => if t.len() > 0 && t[0] == ']' {
            add_field(ReadState { list: None, ..st }, (k, ValueView::List(items)))
        } else {
            ReadState { list: Some((k, items + scan_items(t, 0, -1).0)), ..st }
        },
        None => if t == "[[timeline]]"@ {
            ReadState { blocks: st.blocks.push(Seq::empty()), ..st }
        } else if t.len() == 0 || t[0] == '#' || find_eq(t, 0) >= t.len() {
            st
        } else {
            let k = trim(t.subrange(0, find_eq(t, 0)));
            let v = trim(t.subrange(find_eq(t, 0) + 1, t.len() as int));
            if v.len() > 0 && v[0] == '"' && close_quote(v, 1) < v.len() {
                add_field(st, (k, ValueView::Str(v.subrange(1, close_quote(v, 1)))))
            } else if v.len() > 0 && v[0] == '[' {
                let sc = scan_items(v, 1, -1);
                if sc.1 {
                    add_field(st, (k, ValueView::List(sc.0)))
                } else {
                    ReadState { list: Some((k, sc.0)), ..st }
                }
            } else {
                st
            }
        },
    }
}

pub open spec fn read_lines(ls: Seq<Seq<char>>) -> ReadState
    decreases ls.len(),
{
    if ls.len() == 0 {
        ReadState { header: Seq::empty(), blocks: Seq::empty(), list: None }
    } else {
        read_line(read_lines(ls.drop_last()), ls.last())
    }
}

/// The value of the first field with this key.
pub open spec fn lookup(fs: Seq<(Seq<char>, ValueView)>, k: Seq<char>) -> Option<ValueView>
    decreases fs.len(),
{
    if fs.len() == 0 {
        None
    } else if fs[0].0 == k {
        Some(fs[0].1)
    } else {
        lookup(fs.drop_first(), k)
    }
}

pub open spec fn str_field(fs: Seq<(Seq<char>, ValueView)>, k: Seq<char>) -> Option<Seq<char>> {
    match lookup(fs, k) {
        Some(ValueView::Str(s)) => Some(s),
        _ => None,
    }
}

/// A `trackers` field: one string or a list of them.
pub open spec fn trackers_field(fs: Seq<(Seq<char>, ValueView)>) -> Seq<Seq<char>> {
    match lookup(fs, "trackers"@) {
        Some(ValueView::Str(s)) => seq![s],
        Some(ValueView::List(l)) => l,
        None => Seq::empty(),
    }
}

/// Why a session could not be read.
#[derive(Clone, Copy, Debug, PartialEq, Eq, Structural)]
pub enum SessionParseError {
    /// It has no `start`.
    MissingStart,
    /// Its `start` or `end` is no time on the log's date.
    InvalidTime(TimeError),
}

/// Whether a session can be read from these fields, and if not, why.
pub open spec fn session_fields_error(
    fs: Seq<(Seq<char>, ValueView)>,
    date: Date,
    tz: Seq<char>,
) -> Option<SessionParseError> {
    match str_field(fs, "start"@) {
        None => Some(SessionParseError::MissingStart),
        Some(s) => match read_time_spec(date, tz, s) {
            Err(e) => Some(SessionParseError::InvalidTime(e)),
            Ok(_) => match str_field(fs, "end"@) {
                None => None,
                Some(e) => match read_time_spec(date, tz, e) {
                    Err(e) => Some(SessionParseError::InvalidTime(e)),
                    Ok(_) => None,
                },
            },
        },
    }
}

/// The session read from fields that have no error.
pub open spec fn session_from_fields(
    sv: crate::session::SessionView,
    fs: Seq<(Seq<char>, ValueView)>,
    date: Date,
    tz: Seq<char>,
) -> bool {
    &&& made_from(
        sv.intent,
        str_field(fs, "alias"@),
        str_field(fs, "role"@),
        str_field(fs, "objective"@),
        str_field(fs, "action"@),
        str_field(fs, "subject"@),
        trackers_field(fs),
    )
    &&& read_time_spec(date, tz, str_field(fs, "start"@)->Some_0) == Ok::<ZonedTime, TimeError>(
        sv.start,
    )
    &&& match str_field(fs, "end"@) {
        None => sv.end is None,
        Some(e) => sv.end is Some && read_time_spec(date, tz, e) == Ok::<ZonedTime, TimeError>(
            sv.end->Some_0,
        ),
    }
    &&& sv.note == str_field(fs, "note"@)
}

pub open spec fn fields_view(v: Seq<(String, ValueType)>) -> Seq<(Seq<char>, ValueView)> {
    v.map_values(|f: (String, ValueType)| (f.0@, f.1@))
}

/// The value of the first field with this key.
pub fn find_field<'a>(fs: &'a Vec<(String, ValueType)>, k: &str) -> (r: Option<&'a ValueType>)
    ensures
        r matches Some(v) ==> lookup(fields_view(fs@), k@) == Some(v@),
        r is None ==> lookup(fields_view(fs@), k@) is None,
{
    let ghost all = fields_view(fs@);
    let key = String::from_str(k);
    assert(all.subrange(0, all.len() as int) =~= all);
    let mut i: usize = 0;
    while i < fs.len()
        invariant
            i <= fs.len(),
            all == fields_view(fs@),
            key@ == k@,
            lookup(all, k@) == lookup(all.subrange(i as int, all.len() as int), k@),
        decreases fs.len() - i,
    {
        let ghost rest = all.subrange(i as int, all.len() as int);
        assert(rest[0] == (fs@[i as int].0@, fs@[i as int].1@));
        if fs[i].0 == key {
            return Some(&fs[i].1);
        }
        assert(rest.drop_first() =~= all.subrange(i + 1, all.len() as int));
        i = i + 1;
    }
    None
}

pub fn string_field(fs: &Vec<(String, ValueType)>, k: &str) -> (r: Option<String>)
    ensures
        r matches Some(s) ==> str_field(fields_view(fs@), k@) == Some(s@),
        r is None ==> str_field(fields_view(fs@), k@) is None,
{
    match find_field(fs, k) {
        Some(v) => match v.as_string() {
            Some(s) => Some(s.clone()),
            None => None,
        },
        None => None,
    }
}

impl Session {
    /// Reads a session from a block's fields, placing its times on `date` in
    /// zone `timezone`.
    pub fn from_dict_with_tz(dict: &Vec<(String, ValueType)>, date: Date, timezone: &str) -> (r:
        Result<Session, SessionParseError>)
        requires
            date.wf(),
        ensures
            r matches Err(e) ==> session_fields_error(fields_view(dict@), date, timezone@) == Some(
                e,
            ),
            r matches Ok(s) ==> session_fields_error(fields_view(dict@), date, timezone@) is None
                && session_from_fields(s@, fields_view(dict@), date, timezone@) && s@.wf(),
    {
        let ghost fs = fields_view(dict@);
        let start = match string_field(dict, "start") {
            Some(s) => s,
            None => {
                return Err(SessionParseError::MissingStart);
            },
        };
        let start = match read_time(date, timezone, start.as_str()) {
            Ok(t) => t,
            Err(e) => {
                return Err(SessionParseError::InvalidTime(e));
            },
        };
        let end = match string_field(dict, "end") {
            Some(s) => match read_time(date, timezone, s.as_str()) {
                Ok(t) => Some(t),
                Err(e) => {
                    return Err(SessionParseError::InvalidTime(e));
                },
            },
            None => None,
        };
        let trackers: Vec<String> = match find_field(dict, "trackers") {
            Some(v) => match v {
                ValueType::String(s) => {
                    let mut t: Vec<String> = Vec::new();
                    t.push(s.clone());
                    assert(strings_view(t) =~= seq![s@]);
                    t
                },
                ValueType::List(l) => crate::intent::clone_strings(l),
            },
            None => {
                let t: Vec<String> = Vec::new();
                assert(strings_view(t) =~= Seq::<Seq<char>>::empty());
                t
            },
        };
        let intent = Intent::new(
            string_field(dict, "alias"),
            string_field(dict, "role"),
            string_field(dict, "objective"),
            string_field(dict, "action"),
            string_field(dict, "subject"),
            trackers,
        );
        let note = string_field(dict, "note");
        Ok(Session::new(intent, start, end, note))
    }
}

pub fn split_lines_exec(t: &Vec<char>) -> (r: Vec<Vec<char>>)
    ensures
        crate::layout::lines_view(r@) == split_lines(t@),
{
    let mut done: Vec<Vec<char>> = Vec::new();
    let mut cur: Vec<char> = Vec::new();
    let mut i: usize = 0;
    assert(t@.subrange(0, 0) =~= Seq::<char>::empty());
    while i < t.len()
        invariant
            i <= t.len(),
            crate::layout::lines_view(done@).push(cur@) == split_lines(t@.subrange(0, i as int)),
        decreases t.len() - i,
    {
        let ghost prev = t@.subrange(0, i as int);
        assert(t@.subrange(0, i + 1).drop_last() =~= prev);
        if t[i] == '\n' {
            let ghost d = crate::layout::lines_view(done@);
            let line = cur;
            done.push(line);
            cur = Vec::new();
            assert(crate::layout::lines_view(done@) =~= d.push(line@));
            assert(crate::layout::lines_view(done@).push(cur@) =~= d.push(line@).push(
                Seq::empty(),
            ));
        } else {
            let ghost d = crate::layout::lines_view(done@);
            let ghost old_cur = cur@;
            cur.push(t[i]);
            assert(d.push(cur@) =~= d.push(old_cur).update(d.len() as int, old_cur.push(t@[i as int])));
        }
        i = i + 1;
    }
    assert(t@.subrange(0, t.len() as int) =~= t@);
    let ghost d = crate::layout::lines_view(done@);
    done.push(cur);
    assert(crate::layout::lines_view(done@) =~= d.push(cur@));
    done
}

fn close_quote_exec(s: &Vec<char>, j: usize) -> (r: usize)
    requires
        j <= s.len(),
    ensures
        r == close_quote(s@, j as int),
        j <= r <= s.len(),
{
    let mut k = j;
    while k < s.len() && s[k] != '"'
        invariant
            j <= k <= s.len(),
            close_quote(s@, j as int) == close_quote(s@, k as int),
        decreases s.len() - k,
    {
        k = k + 1;
    }
    k
}

fn chars_string(s: &Vec<char>, a: usize, b: usize) -> (r: String)
    requires
        a <= b <= s.len(),
    ensures
        r@ == s@.subrange(a as int, b as int),
{
    let v = crate::time::slice_chars(s, a, b);
    from_chars(v.as_slice())
}

/// The quoted strings of a list from `i0` on, and whether a `]` closes it.
fn scan_items_exec(s: &Vec<char>, i0: usize) -> (r: (Vec<String>, bool))
    requires
        i0 <= s.len(),
    ensures
        strings_view(r.0) == scan_items(s@, i0 as int, -1).0,
        r.1 == scan_items(s@, i0 as int, -1).1,
{
    let mut items: Vec<String> = Vec::new();
    let mut i = i0;
    let mut inq = false;
    let mut q: usize = 0;
    while i < s.len()
        invariant
            i0 <= i <= s.len(),
            inq ==> q <= i,
            scan_items(s@, i0 as int, -1) == (strings_view(items) + scan_items(
                s@,
                i as int,
                if inq {
                    q as int
                } else {
                    -1
                },
            ).0, scan_items(
                s@,
                i as int,
                if inq {
                    q as int
                } else {
                    -1
                },
            ).1),
        decreases s.len() - i,
    {
        let c = s[i];
        if inq {
            if c == '"' {
                let ghost before = strings_view(items);
                let item = chars_string(s, q, i);
                items.push(item);
                assert(strings_view(items) =~= before.push(item@));
                assert(strings_view(items) + scan_items(s@, i + 1, -1).0 =~= before + (seq![
                    s@.subrange(q as int, i as int),
                ] + scan_items(s@, i + 1, -1).0));
                inq = false;
            }
        } else if c == ']' {
            assert(scan_items(s@, i as int, -1).0 =~= Seq::<Seq<char>>::empty());
            assert(strings_view(items) + Seq::<Seq<char>>::empty() =~= strings_view(items));
            return (items, true);
        } else if c == '#' {
            assert(strings_view(items) + Seq::<Seq<char>>::empty() =~= strings_view(items));
            return (items, false);
        } else if c == '"' {
            inq = true;
            q = i + 1;
        }
        i = i + 1;
    }
    assert(strings_view(items) + Seq::<Seq<char>>::empty() =~= strings_view(items));
    (items, false)
}

/// Whether `t` is the text `s`.
fn same_chars(t: &Vec<char>, s: &str) -> (r: bool)
    ensures
        r == (t@ == s@),
{
    let v = to_chars(s);
    if t.len() != v.len() {
        return false;
    }
    let mut i: usize = 0;
    while i < t.len()
        invariant
            i <= t.len() == v.len(),
            v@ == s@,
            forall|j: int| 0 <= j < i ==> t@[j] == v@[j],
        decreases t.len() - i,
    {
        if t[i] != v[i] {
            return false;
        }
        i = i + 1;
    }
    assert(t@ =~= v@);
    true
}

/// The reading of a log's text, line by line.
pub struct Reader {
    pub header: Vec<(String, ValueType)>,
    pub blocks: Vec<Vec<(String, ValueType)>>,
    pub list: Option<(String, Vec<String>)>,
}

impl View for Reader {
    type V = ReadState;

    open spec fn view(&self) -> ReadState {
        ReadState {
            header: fields_view(self.header@),
            blocks: self.blocks@.map_values(|b: Vec<(String, ValueType)>| fields_view(b@)),
            list: match self.list {
                Some((k, v)) => Some((k@, strings_view(v))),
                None => None,
            },
        }
    }
}

impl Reader {
    fn add_field(&mut self, k: String, v: ValueType)
        ensures
            final(self)@ == add_field(old(self)@, (k@, v@)),
    {
        let ghost f = (k@, v@);
        if self.blocks.len() == 0 {
            let ghost h = fields_view(self.header@);
            self.header.push((k, v));
            assert(fields_view(self.header@) =~= h.push(f));
        } else {
            let ghost bs = self@.blocks;
            let mut b = self.blocks.pop().unwrap();
            let ghost bv = fields_view(b@);
            b.push((k, v));
            assert(fields_view(b@) =~= bv.push(f));
            self.blocks.push(b);
            assert(self@.blocks =~= bs.update(bs.len() - 1, bs.last().push(f)));
        }
    }

    fn read_line(&mut self, line: &Vec<char>)
        ensures
            final(self)@ == read_line(old(self)@, line@),
    {
        let t = trimmed(line, 0, line.len());
        assert(line@.subrange(0, line.len() as int) =~= line@);
        let open = self.list.take();
        match open {
            Some((k, items)) => {
                if t.len() > 0 && t[0] == ']' {
                    self.add_field(k, ValueType::List(items));
                } else {
                    let (more, _) = scan_items_exec(&t, 0);
                    let mut all = items;
                    let ghost a = strings_view(all);
                    let mut j: usize = 0;
                    while j < more.len()
                        invariant
                            j <= more.len(),
                            strings_view(all) == a + strings_view(more).subrange(0, j as int),
                        decreases more.len() - j,
                    {
                        let ghost prev = strings_view(all);
                        let m = more[j].clone();
                        all.push(m);
                        assert(strings_view(all) =~= prev.push(m@));
                        j = j + 1;
                        assert(strings_view(all) =~= a + strings_view(more).subrange(0, j as int));
                    }
                    assert(strings_view(more).subrange(0, more.len() as int) =~= strings_view(more));
                    self.list = Some((k, all));
                }
            },
            None => {
                if same_chars(&t, "[[timeline]]") {
                    let ghost bs = self@.blocks;
                    let b: Vec<(String, ValueType)> = Vec::new();
                    assert(fields_view(b@) =~= Seq::<(Seq<char>, ValueView)>::empty());
                    self.blocks.push(b);
                    assert(self@.blocks =~= bs.push(Seq::empty()));
                    return ;
                }
                let e = find_eq_exec(&t);
                if t.len() == 0 || t[0] == '#' || e >= t.len() {
                    return ;
                }
                let kc = trimmed(&t, 0, e);
                let v = trimmed(&t, e + 1, t.len());
                let k = from_chars(kc.as_slice());
                if v.len() > 0 && v[0] == '"' && close_quote_exec(&v, 1) < v.len() {
                    let c = close_quote_exec(&v, 1);
                    let s = chars_string(&v, 1, c);
                    self.add_field(k, ValueType::String(s));
                } else if v.len() > 0 && v[0] == '[' {
                    let (items, closed) = scan_items_exec(&v, 1);
                    if closed {
                        self.add_field(k, ValueType::List(items));
                    } else {
                        self.list = Some((k, items));
                    }
                }
            },
        }
    }
}

/// The fields of a log's text: those before the first `[[timeline]]` and
/// those of each timeline block.
pub fn read_log_fields(text: &str) -> (r: Reader)
    ensures
        r@ == read_lines(split_lines(text@)),
{
    let chars = to_chars(text);
    let lines = split_lines_exec(&chars);
    let ghost ls = crate::layout::lines_view(lines@);
    let mut rd = Reader { header: Vec::new(), blocks: Vec::new(), list: None };
    assert(rd@.header =~= Seq::<(Seq<char>, ValueView)>::empty());
    assert(rd@.blocks =~= Seq::<Seq<(Seq<char>, ValueView)>>::empty());
    assert(ls.subrange(0, 0) =~= Seq::<Seq<char>>::empty());
    let mut i: usize = 0;
    while i < lines.len()
        invariant
            i <= lines.len(),
            ls == crate::layout::lines_view(lines@),
            rd@ == read_lines(ls.subrange(0, i as int)),
        decreases lines.len() - i,
    {
        rd.read_line(&lines[i]);
        assert(ls.subrange(0, i + 1).drop_last() =~= ls.subrange(0, i as int));
        i = i + 1;
    }
    assert(ls.subrange(0, lines.len() as int) =~= ls);
    rd
}

/// The number that four digits from `i` on denote.
pub open spec fn digits4(s: Seq<char>, i: int) -> int {
    digit_value(s[i]) * 1000 + digit_value(s[i + 1]) * 100 + digit_value(s[i + 2]) * 10
        + digit_value(s[i + 3])
}

pub open spec fn digits2(s: Seq<char>, i: int) -> int {
    digit_value(s[i]) * 10 + digit_value(s[i + 1])
}

/// The date that `YYYY-MM-DD` denotes, if it exists.
pub open spec fn iso_date(s: Seq<char>) -> Option<Date> {
    if s.len() == 10 && s[4] == '-' && s[7] == '-' && (forall|i: int|
        0 <= i < 10 && i != 4 && i != 7 ==> is_digit(#[trigger] s[i])) {
        let d = Date {
            year: digits4(s, 0) as i32,
            month: digits2(s, 5) as u32,
            day: digits2(s, 8) as u32,
        };
        if d.wf() {
            Some(d)
        } else {
            None
        }
    } else {
        None
    }
}

/// Reads `YYYY-MM-DD`.
pub fn parse_iso_date(s: &Vec<char>) -> (r: Option<Date>)
    ensures
        r == iso_date(s@),
{
    if s.len() != 10 || s[4] != '-' || s[7] != '-' {
        return None;
    }
    let mut ds: Vec<u32> = Vec::new();
    let mut i: usize = 0;
    while i < 10
        invariant
            i <= 10,
            s.len() == 10,
            ds.len() == i,
            forall|j: int| 0 <= j < i && j != 4 && j != 7 ==> is_digit(#[trigger] s@[j]) && ds@[j]
                == digit_value(s@[j]),
            forall|j: int| 0 <= j < i ==> ds@[j] < 10,
        decreases 10 - i,
    {
        if i == 4 || i == 7 {
            ds.push(0);
        } else {
            match digit_at(s, i) {
                Some(d) => ds.push(d),
                None => {
                    return None;
                },
            }
        }
        i = i + 1;
    }
    let year = (ds[0] * 1000 + ds[1] * 100 + ds[2] * 10 + ds[3]) as i32;
    let month = ds[5] * 10 + ds[6];
    let day = ds[8] * 10 + ds[9];
    Date::new(year, month, day)
}

/// Why a log's text could not be read.
#[derive(Clone, Copy, Debug, PartialEq, Eq, Structural)]
pub enum LogParseError {
    MissingDate,
    InvalidDate,
    MissingTimezone,
    UnknownTimezone,
    /// The session of the block at this index (from 0) could not be read.
    InvalidSession(usize, SessionParseError),
}

/// The first block from `i` on whose session cannot be read, with why.
pub open spec fn first_session_error(
    blocks: Seq<Seq<(Seq<char>, ValueView)>>,
    date: Date,
    tz: Seq<char>,
    i: int,
) -> Option<(int, SessionParseError)>
    decreases blocks.len() - i,
{
    if i < 0 || i >= blocks.len() {
        None
    } else {
        match session_fields_error(blocks[i], date, tz) {
            Some(e) => Some((i, e)),
            None => first_session_error(blocks, date, tz, i + 1),
        }
    }
}

/// Why the fields read from a log's text make no log, if they do not.
pub open spec fn log_fields_error(st: ReadState) -> Option<LogParseError> {
    match str_field(st.header, "date"@) {
        None => Some(LogParseError::MissingDate),
        Some(ds) => match iso_date(ds) {
            None => Some(LogParseError::InvalidDate),
            Some(date) => match str_field(st.header, "timezone"@) {
                None => Some(LogParseError::MissingTimezone),
                Some(tz) => if resolve_spec(tz, date, 0) == Err::<ZonedTime, TimeError>(
                    TimeError::UnknownTimezone,
                ) {
                    Some(LogParseError::UnknownTimezone)
                } else {
                    match first_session_error(st.blocks, date, tz, 0) {
                        Some((i, e)) => Some(LogParseError::InvalidSession(i as usize, e)),
                        None => None,
                    }
                },
            },
        },
    }
}

impl Log {
    /// Reads a log from its text: `date` and `timezone` from the lines before
    /// the first `[[timeline]]`, then one session per timeline block. Comment
    /// lines, derived values and unknown lines are skipped.
    pub fn from_log_file(text: &str) -> (r: Result<Log, LogParseError>)
        ensures
            ({
                let st = read_lines(split_lines(text@));
                &&& r matches Err(e) ==> log_fields_error(st) == Some(e)
                &&& r matches Ok(l) ==> {
                    &&& log_fields_error(st) is None
                    &&& l.wf()
                    &&& str_field(st.header, "date"@) matches Some(ds) && iso_date(ds) == Some(
                        l.date,
                    )
                    &&& str_field(st.header, "timezone"@) == Some(l.timezone@)
                    &&& l.timeline.len() == st.blocks.len()
                    &&& forall|i: int|
                        0 <= i < l.timeline.len() ==> session_from_fields(
                            (#[trigger] l.timeline@[i])@,
                            st.blocks[i],
                            l.date,
                            l.timezone@,
                        )
                }
            }),
    {
        let rd = read_log_fields(text);
        let ghost st = rd@;
        let date = match string_field(&rd.header, "date") {
            None => {
                return Err(LogParseError::MissingDate);
            },
            Some(ds) => match parse_iso_date(&to_chars(ds.as_str())) {
                None => {
                    return Err(LogParseError::InvalidDate);
                },
                Some(d) => d,
            },
        };
        let tz = match string_field(&rd.header, "timezone") {
            None => {
                return Err(LogParseError::MissingTimezone);
            },
            Some(t) => t,
        };
        match resolve(tz.as_str(), date, 0) {
            Err(TimeError::UnknownTimezone) => {
                return Err(LogParseError::UnknownTimezone);
            },
            _ => {},
        }
        assert(log_fields_error(st) == match first_session_error(st.blocks, date, tz@, 0) {
            Some((i, e)) => Some(LogParseError::InvalidSession(i as usize, e)),
            None => None,
        });
        let mut sessions: Vec<Session> = Vec::new();
        let mut i: usize = 0;
        while i < rd.blocks.len()
            invariant
                i <= rd.blocks.len(),
                st == rd@,
                st == read_lines(split_lines(text@)),
                log_fields_error(st) == match first_session_error(st.blocks, date, tz@, 0) {
                    Some((i, e)) => Some(LogParseError::InvalidSession(i as usize, e)),
                    None => None,
                },
                str_field(st.header, "date"@) matches Some(ds) && iso_date(ds) == Some(date),
                str_field(st.header, "timezone"@) == Some(tz@),
                date.wf(),
                sessions.len() == i,
                first_session_error(st.blocks, date, tz@, 0) == first_session_error(
                    st.blocks,
                    date,
                    tz@,
                    i as int,
                ),
                forall|j: int|
                    0 <= j < i ==> session_from_fields(
                        (#[trigger] sessions@[j])@,
                        st.blocks[j],
                        date,
                        tz@,
                    ) && sessions@[j]@.wf(),
            decreases rd.blocks.len() - i,
        {
            assert(st.blocks[i as int] == fields_view(rd.blocks@[i as int]@));
            match Session::from_dict_with_tz(&rd.blocks[i], date, tz.as_str()) {
                Ok(s) => {
                    sessions.push(s);
                },
                Err(e) => {
                    assert(first_session_error(st.blocks, date, tz@, i as int) == Some(
                        (i as int, e),
                    ));
                    assert(log_fields_error(st) == Some(LogParseError::InvalidSession(i, e)));
                    return Err(LogParseError::InvalidSession(i, e));
                },
            }
            i = i + 1;
        }
        let l = Log::new(date, tz, sessions);
        assert forall|i: int| 0 <= i < l.timeline.len() implies (#[trigger] l.timeline@[i])@.wf() by {
            assert(sessions@[i]@.wf());
        }
        Ok(l)
    }
}

} // verus!
