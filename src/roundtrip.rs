use vstd::prelude::*;

use crate::codec::{
    blocks, date_text, duration_text, header_lines, intent_lines, kv, label_of, labelled,
    note_lines, opt_line, quoted, raw_lines, session_lines, sort_by_start, time_lines,
    tracker_item, tracker_lines,
};
use crate::layout::{
    aligned, commentify, find_eq, is_derived, is_keyed, is_name_char, is_ws, key_of, name_run,
    trailing_ws, trim, utf8_len, value_of, ws_run,
};
use crate::log::LogView;
use crate::parse::{
    add_field, close_quote, digits2, digits4, first_session_error, iso_date, log_fields_error,
    lookup, read_line, read_lines, scan_items, session_fields_error, session_from_fields,
    str_field, trackers_field, ReadState,
};
use crate::session::{same_session, SessionView};
use crate::text::{digit_char, digit_value, is_digit, two_digits};
use crate::time::{
    clock_seconds, clock_text, has_dst_event, offset_seconds, offset_text, read_time_spec, Date,
    ZonedTime,
};
use crate::valuetype::ValueView;

verus! {

proof fn lemma_digit(n: int)
    requires
        0 <= n < 10,
    ensures
        is_digit(digit_char(n)),
        digit_value(digit_char(n)) == n,
{
}

proof fn lemma_two_digits(n: int)
    requires
        0 <= n < 100,
    ensures
        two_digits(n).len() == 2,
        is_digit(two_digits(n)[0]),
        is_digit(two_digits(n)[1]),
        digit_value(two_digits(n)[0]) * 10 + digit_value(two_digits(n)[1]) == n,
{
    lemma_digit(n / 10);
    lemma_digit(n % 10);
}

/// A date written `YYYY-MM-DD` reads back as itself.
pub proof fn lemma_date_text_round_trip(d: Date)
    requires
        d.wf(),
    ensures
        iso_date(date_text(d)) == Some(d),
{
    let y = d.year as int;
    let s = date_text(d);
    lemma_two_digits(y / 100);
    lemma_two_digits(y % 100);
    lemma_two_digits(d.month as int);
    lemma_two_digits(d.day as int);
    reveal_strlit("-");
    assert(s[4] == '-');
    assert(s[7] == '-');
    assert(digits4(s, 0) == (y / 100) * 100 + y % 100);
    assert(digits2(s, 5) == d.month);
    assert(digits2(s, 8) == d.day);
    assert(forall|i: int| 0 <= i < 10 && i != 4 && i != 7 ==> is_digit(#[trigger] s[i]));
}

/// A time on a whole minute, written `HH:MM`, reads back as its second of the day.
pub proof fn lemma_clock_round_trip(t: ZonedTime)
    requires
        t.wf(),
        t.second_of_day() % 60 == 0,
    ensures
        clock_text(t, false).len() == 5,
        clock_seconds(clock_text(t, false)) == Some(t.second_of_day()),
        forall|i: int| 0 <= i < 5 ==> #[trigger] clock_text(t, false)[i] != '+' && clock_text(t, false)[i] != '-',
{
    let s = t.second_of_day();
    let c = clock_text(t, false);
    lemma_two_digits(s / 3600);
    lemma_two_digits((s % 3600) / 60);
    reveal_strlit(":");
    assert(c[2] == ':');
}

/// An offset of whole minutes, written `+HHMM` or `-HHMM`, reads back as itself.
pub proof fn lemma_offset_round_trip(o: int)
    requires
        -86400 < o < 86400,
        o % 60 == 0,
    ensures
        offset_text(o).len() == 5,
        offset_seconds(offset_text(o)) == Some(o),
{
    let a = if o < 0 {
        -o
    } else {
        o
    };
    lemma_two_digits(a / 3600);
    lemma_two_digits((a % 3600) / 60);
}

/// What a log holds as a start or end on its date reads back as the same
/// instant: with an offset, when the instant falls on the date; bare, when
/// the zone gives that local time this one instant.
pub proof fn lemma_time_round_trip(date: Date, tz: Seq<char>, t: ZonedTime, with_offset: bool)
    requires
        date.wf(),
        t.wf(),
        t.second_of_day() % 60 == 0,
        t.offset % 60 == 0,
        t.local() == date.epoch_day() * 86400 + t.second_of_day(),
        !with_offset ==> crate::time::local_resolutions(
            tz,
            date.year as int,
            date.month as int,
            date.day as int,
            t.second_of_day(),
        ) == Some(seq![(t.utc, t.offset)]),
    ensures
        read_time_spec(date, tz, clock_text(t, with_offset)) == Ok::<ZonedTime, crate::time::TimeError>(t),
{
    lemma_clock_round_trip(t);
    let c = clock_text(t, false);
    if with_offset {
        lemma_offset_round_trip(t.offset as int);
        let s = clock_text(t, true);
        assert(s.subrange(0, 5) =~= c);
        assert(s.subrange(5, 10) =~= offset_text(t.offset as int));
    } else {
        assert(!crate::time::has_sign(c));
    }
}

proof fn lemma_ws_run_is(l: Seq<char>, i: int, n: int)
    requires
        0 <= i,
        0 <= n,
        i + n <= l.len(),
        forall|k: int| i <= k < i + n ==> is_ws(#[trigger] l[k]),
        i + n == l.len() || !is_ws(l[i + n]),
    ensures
        ws_run(l, i) == n,
    decreases n,
{
    if n > 0 {
        lemma_ws_run_is(l, i + 1, n - 1);
    }
}

proof fn lemma_find_eq_is(l: Seq<char>, i: int, j: int)
    requires
        0 <= i <= j < l.len(),
        forall|k: int| i <= k < j ==> #[trigger] l[k] != '=',
        l[j] == '=',
    ensures
        find_eq(l, i) == j,
    decreases j - i,
{
    if i < j {
        lemma_find_eq_is(l, i + 1, j);
    }
}

proof fn lemma_close_quote_is(l: Seq<char>, i: int, j: int)
    requires
        0 <= i <= j < l.len(),
        forall|k: int| i <= k < j ==> #[trigger] l[k] != '"',
        l[j] == '"',
    ensures
        close_quote(l, i) == j,
    decreases j - i,
{
    if i < j {
        lemma_close_quote_is(l, i + 1, j);
    }
}

proof fn lemma_trailing_is(l: Seq<char>, n: int)
    requires
        0 <= n <= l.len(),
        forall|k: int| l.len() - n <= k < l.len() ==> is_ws(#[trigger] l[k]),
        n == l.len() || !is_ws(l[l.len() - n - 1]),
    ensures
        trailing_ws(l) == n,
    decreases n,
{
    if n > 0 {
        let d = l.drop_last();
        assert forall|k: int| d.len() - (n - 1) <= k < d.len() implies is_ws(#[trigger] d[k]) by {
            assert(d[k] == l[k]);
        }
        if n - 1 < d.len() {
            assert(d[d.len() - (n - 1) - 1] == l[l.len() - n - 1]);
        }
        lemma_trailing_is(d, n - 1);
    }
}

proof fn lemma_trailing_le(a: Seq<char>, b: Seq<char>)
    requires
        a.len() > 0,
        !is_ws(a.last()),
    ensures
        0 <= trailing_ws(a + b) <= b.len(),
    decreases b.len(),
{
    if b.len() == 0 {
        assert(a + b =~= a);
    } else if is_ws(b.last()) {
        assert((a + b).drop_last() =~= a + b.drop_last());
        lemma_trailing_le(a, b.drop_last());
    }
}

/// Trimming `w` spaces, then `q`, then anything, keeps `q` at the front when
/// `q` starts and ends with characters that are not whitespace.
proof fn lemma_trim_prefix(w: nat, q: Seq<char>, tail: Seq<char>)
    requires
        q.len() > 0,
        !is_ws(q[0]),
        !is_ws(q.last()),
    ensures
        trim(Seq::new(w, |i: int| ' ') + q + tail).len() >= q.len(),
        trim(Seq::new(w, |i: int| ' ') + q + tail).subrange(0, q.len() as int) == q,
{
    let sp = Seq::new(w, |i: int| ' ');
    let s = sp + q + tail;
    lemma_ws_run_is(s, 0, w as int);
    let rest = s.subrange(w as int, s.len() as int);
    assert(rest =~= q + tail);
    lemma_trailing_le(q, tail);
    assert(trim(s).subrange(0, q.len() as int) =~= q);
}

/// A key of a log line: letters and `_`, starting with a lowercase letter.
pub open spec fn log_key(k: Seq<char>) -> bool {
    k.len() > 0 && 'a' <= k[0] <= 'z' && forall|i: int|
        0 <= i < k.len() ==> ('a' <= #[trigger] k[i] <= 'z') || k[i] == '_'
}

/// Text that can stand between quotes on a log line.
pub open spec fn quotable(v: Seq<char>) -> bool {
    forall|i: int| 0 <= i < v.len() ==> #[trigger] v[i] != '"' && v[i] != '\n'
}

/// A label comment after a value, or nothing.
pub open spec fn comment_tail(label: Option<Seq<char>>) -> Seq<char> {
    match label {
        Some(n) => " # "@ + n,
        None => Seq::empty(),
    }
}

/// `key = "value"`, maybe with a label comment, is a line with key `key`.
pub proof fn lemma_kv_key(k: Seq<char>, v: Seq<char>, label: Option<Seq<char>>)
    requires
        log_key(k),
    ensures
        commentify(kv(k, v) + comment_tail(label)) == kv(k, v) + comment_tail(label),
        is_keyed(kv(k, v) + comment_tail(label)),
        key_of(kv(k, v) + comment_tail(label)) == k,
{
    reveal_strlit(" = ");
    reveal_strlit(" ");
    let line = kv(k, v) + comment_tail(label);
    let n = k.len() as int;
    assert(line =~= k + " = "@ + quoted(v) + comment_tail(label));
    assert(!is_derived(line));
    assert forall|i: int| 0 <= i < n implies #[trigger] line[i] != '=' by {
        assert(line[i] == k[i]);
    }
    lemma_find_eq_is(line, 0, n + 1);
    lemma_ws_run_is(line, 0, 0);
    let kpart = line.subrange(0, n + 1);
    assert(kpart =~= k + " "@);
    lemma_ws_run_is(kpart, 0, 0);
    assert(kpart.subrange(0, kpart.len() as int) =~= kpart);
    lemma_trailing_is(kpart, 1);
    assert(key_of(line) =~= k);
}

/// `key = "value"`, maybe followed by a label comment, laid out with keys
/// padded to `width` and read back: it gives the field, whatever the padding.
#[verifier::rlimit(60)]
pub proof fn lemma_kv_line_read(
    st: ReadState,
    k: Seq<char>,
    v: Seq<char>,
    label: Option<Seq<char>>,
    width: int,
)
    requires
        st.list is None,
        log_key(k),
        quotable(v),
        width >= utf8_len(k),
    ensures
        read_line(st, aligned(commentify(kv(k, v) + comment_tail(label)), width)) == add_field(
            st,
            (k, ValueView::Str(v)),
        ),
{
    reveal_strlit(" = ");
    reveal_strlit("\"");
    reveal_strlit(" # ");
    reveal_strlit(" ");
    let tail = comment_tail(label);
    let q = quoted(v);
    let line = kv(k, v) + tail;
    let n = k.len() as int;
    let m = v.len() as int;
    assert(line =~= k + " = "@ + q + tail);
    assert(!is_derived(line));
    assert(commentify(line) == line);
    assert forall|i: int| 0 <= i < n implies #[trigger] line[i] != '=' by {
        assert(line[i] == k[i]);
    }
    lemma_find_eq_is(line, 0, n + 1);
    lemma_ws_run_is(line, 0, 0);
    assert(is_keyed(line));
    let kpart = line.subrange(0, n + 1);
    assert(kpart =~= k + " "@);
    lemma_ws_run_is(kpart, 0, 0);
    assert(kpart.subrange(0, kpart.len() as int) =~= kpart);
    lemma_trailing_is(kpart, 1);
    assert(key_of(line) =~= k);
    let rest = line.subrange(n + 2, line.len() as int);
    assert(rest =~= Seq::new(1, |i: int| ' ') + q + tail);
    lemma_trim_prefix(1, q, tail);
    let vt = value_of(line);
    assert(vt.len() >= q.len() && vt.subrange(0, q.len() as int) == q);
    let pad = Seq::new((width - utf8_len(k)) as nat, |i: int| ' ');
    let p = pad.len() as int;
    let a = aligned(line, width);
    let head = k + pad + " = "@ + q;
    let after = vt.subrange(q.len() as int, vt.len() as int);
    assert(a =~= Seq::new(0, |i: int| ' ') + head + after) by {
        assert(vt =~= q + after);
    }
    lemma_trim_prefix(0, head, after);
    let ta = trim(a);
    assert(ta.len() >= head.len());
    assert(ta.subrange(0, head.len() as int) == head);
    assert forall|i: int| 0 <= i < n + p + 1 implies #[trigger] ta[i] != '=' by {
        assert(ta[i] == head[i]);
        if i < n {
            assert(head[i] == k[i]);
        } else {
            assert(head[i] == ' ');
        }
    }
    assert(ta[n + p + 1] == head[n + p + 1]);
    lemma_find_eq_is(ta, 0, n + p + 1);
    let tk = ta.subrange(0, n + p + 1);
    assert(tk =~= k + Seq::new((p + 1) as nat, |i: int| ' ')) by {
        assert forall|i: int| 0 <= i < n + p + 1 implies tk[i] == head[i] by {}
    }
    lemma_ws_run_is(tk, 0, 0);
    assert(tk.subrange(0, tk.len() as int) =~= tk);
    lemma_trailing_is(tk, p + 1);
    assert(trim(tk) =~= k);
    let tv = ta.subrange(n + p + 2, ta.len() as int);
    let after2 = ta.subrange(head.len() as int, ta.len() as int);
    assert(tv =~= Seq::new(1, |i: int| ' ') + q + after2) by {
        assert forall|i: int| 0 <= i < tv.len() implies tv[i] == (Seq::new(1, |i: int| ' ') + q
            + after2)[i] by {
            if i < 1 + q.len() {
                assert(tv[i] == ta[n + p + 2 + i]);
                assert(ta[n + p + 2 + i] == head[n + p + 2 + i]);
            }
        }
    }
    lemma_trim_prefix(1, q, after2);
    let val = trim(tv);
    assert(val.subrange(0, q.len() as int) == q);
    assert forall|i: int| 1 <= i < 1 + v.len() as int implies #[trigger] val[i] != '"' by {
        assert(val[i] == q[i]);
        assert(q[i] == v[i - 1]);
    }
    assert(val[1 + v.len() as int] == q[1 + v.len() as int]);
    lemma_close_quote_is(val, 1, 1 + v.len() as int);
    assert(val.subrange(1, 1 + v.len() as int) =~= v) by {
        assert forall|i: int| 0 <= i < v.len() implies val.subrange(1, 1 + v.len() as int)[i] == v[i] by {
            assert(val[1 + i] == q[1 + i]);
        }
    }
    assert(ta != "[[timeline]]"@) by {
        reveal_strlit("[[timeline]]");
        assert(ta[0] == k[0]);
    }
    assert(ta[0] == head[0]);
    assert(ta[0] != '#');
    assert(q[0] == '"');
    assert(val[0] == val.subrange(0, q.len() as int)[0]);
    assert(val[0] == '"');
    assert(trim(ta.subrange(0, find_eq(ta, 0))) == k);
    assert(trim(ta.subrange(find_eq(ta, 0) + 1, ta.len() as int)) == val);
    assert(close_quote(val, 1) < val.len());
    assert(aligned(commentify(kv(k, v) + comment_tail(label)), width) == a);
}

/// A line that starts with `#` reads as nothing.
pub proof fn lemma_comment_line_read(st: ReadState, l: Seq<char>, width: int)
    requires
        st.list is None,
        l.len() > 0,
        l[0] == '#',
    ensures
        read_line(st, aligned(commentify(l), width)) == st,
{
    assert(!is_derived(l));
    lemma_ws_run_is(l, 0, 0);
    assert(!is_keyed(l));
    let t = trim(l);
    assert(t.len() > 0 && t[0] == '#') by {
        assert(seq![l[0]] + l.drop_first() =~= l);
        lemma_trailing_le(seq![l[0]], l.drop_first());
        assert(l.subrange(0, l.len() as int) =~= l);
        assert(trailing_ws(l) <= l.len() - 1);
    }
    reveal_strlit("[[timeline]]");
}

/// A line with no `=` that trims to nothing or to a `#` comment reads as nothing;
/// the empty line is one.
pub proof fn lemma_empty_line_read(st: ReadState, width: int)
    requires
        st.list is None,
    ensures
        read_line(st, aligned(commentify(Seq::empty()), width)) == st,
{
    let e = Seq::<char>::empty();
    assert(!is_derived(e));
    assert(find_eq(e, 0) == 0);
    assert(!is_keyed(e));
    assert(ws_run(e, 0) == 0);
    assert(trailing_ws(e) == 0);
    assert(trim(e) =~= e);
    reveal_strlit("[[timeline]]");
}

/// `[[timeline]]` opens a new block.
pub proof fn lemma_block_line_read(st: ReadState, width: int)
    requires
        st.list is None,
    ensures
        read_line(st, aligned(commentify("[[timeline]]"@), width)) == (ReadState {
            blocks: st.blocks.push(Seq::empty()),
            ..st
        }),
{
    reveal_strlit("[[timeline]]");
    let l = "[[timeline]]"@;
    assert(!is_derived(l));
    assert forall|i: int| 0 <= i < l.len() implies #[trigger] l[i] != '=' by {}
    assert(find_eq(l, 0) == l.len()) by {
        lemma_find_eq_none(l, 0);
    }
    assert(!is_keyed(l));
    lemma_ws_run_is(l, 0, 0);
    lemma_trailing_is(l, 0);
    assert(trim(l) =~= l);
}

proof fn lemma_find_eq_none(l: Seq<char>, i: int)
    requires
        0 <= i <= l.len(),
        forall|k: int| i <= k < l.len() ==> #[trigger] l[k] != '=',
    ensures
        find_eq(l, i) == l.len(),
    decreases l.len() - i,
{
    if i < l.len() {
        lemma_find_eq_none(l, i + 1);
    }
}

proof fn lemma_name_run_is(l: Seq<char>, i: int, n: int)
    requires
        0 <= i,
        0 <= n,
        i + n <= l.len(),
        forall|k: int| i <= k < i + n ==> is_name_char(#[trigger] l[k]),
        i + n == l.len() || !is_name_char(l[i + n]),
    ensures
        name_run(l, i) == n,
    decreases n,
{
    if n > 0 {
        lemma_name_run_is(l, i + 1, n - 1);
    }
}

/// A derived value `--key = "value"` reads as nothing: it becomes a comment.
pub proof fn lemma_derived_line_read(st: ReadState, k: Seq<char>, v: Seq<char>, width: int)
    requires
        st.list is None,
        log_key(k),
    ensures
        read_line(st, aligned(commentify(kv("--"@ + k, v)), width)) == st,
{
    reveal_strlit("--");
    reveal_strlit(" = ");
    reveal_strlit("\"");
    let l = kv("--"@ + k, v);
    let n = k.len() as int;
    assert(l =~= "--"@ + k + " = "@ + quoted(v));
    lemma_name_run_is(l, 2, n);
    lemma_ws_run_is(l, 2 + n, 1);
    assert(is_derived(l));
    let c = commentify(l);
    reveal_strlit("# ");
    assert(c[0] == '#');
    lemma_comment_line_read(st, c, width);
    assert(commentify(c) == c) by {
        assert(!is_derived(c));
    }
}

/// `trackers = [` opens a list.
pub proof fn lemma_list_open_read(st: ReadState, width: int)
    requires
        st.list is None,
        width >= 8,
    ensures
        read_line(st, aligned(commentify("trackers = ["@), width)) == (ReadState {
            list: Some(("trackers"@, Seq::empty())),
            ..st
        }),
{
    reveal_strlit("trackers = [");
    reveal_strlit("trackers");
    let l = "trackers = ["@;
    let k = "trackers"@;
    assert(!is_derived(l));
    assert forall|i: int| 0 <= i < 9 implies #[trigger] l[i] != '=' by {}
    lemma_find_eq_is(l, 0, 9);
    lemma_ws_run_is(l, 0, 0);
    assert(is_keyed(l));
    let kp = l.subrange(0, 9);
    lemma_ws_run_is(kp, 0, 0);
    assert(kp.subrange(0, 9) =~= kp);
    lemma_trailing_is(kp, 1);
    assert(key_of(l) =~= k);
    let vp = l.subrange(10, 12);
    lemma_ws_run_is(vp, 0, 1);
    assert(vp.subrange(1, 2).subrange(0, 1) =~= vp.subrange(1, 2));
    lemma_trailing_is(vp.subrange(1, 2), 0);
    assert(value_of(l) =~= seq!['[']);
    assert(utf8_len(k) == 8) by {
        reveal_with_fuel(utf8_len, 9);
    }
    let pad = Seq::new((width - 8) as nat, |i: int| ' ');
    let a = aligned(l, width);
    assert(a =~= k + pad + " = "@ + seq!['[']) by {
        reveal_strlit(" = ");
    }
    reveal_strlit(" = ");
    let p = width - 8;
    lemma_ws_run_is(a, 0, 0);
    lemma_trailing_is(a, 0);
    assert(trim(a) =~= a);
    assert forall|i: int| 0 <= i < 8 + p + 1 implies #[trigger] a[i] != '=' by {
        if i < 8 {
            assert(a[i] == k[i]);
        }
    }
    lemma_find_eq_is(a, 0, 8 + p + 1);
    let tk = a.subrange(0, 8 + p + 1);
    assert(tk =~= k + Seq::new((p + 1) as nat, |i: int| ' '));
    lemma_ws_run_is(tk, 0, 0);
    assert(tk.subrange(0, tk.len() as int) =~= tk);
    lemma_trailing_is(tk, p + 1);
    assert(trim(tk) =~= k);
    let tv = a.subrange(8 + p + 2, a.len() as int);
    assert(tv =~= seq![' ', '[']);
    lemma_ws_run_is(tv, 0, 1);
    lemma_trailing_is(tv.subrange(1, 2), 0);
    assert(trim(tv) =~= seq!['[']);
    assert(scan_items(seq!['['], 1, -1) == (Seq::<Seq<char>>::empty(), false));
    reveal_strlit("[[timeline]]");
    assert(a != "[[timeline]]"@) by {
        assert(a[0] == 't');
    }
}

proof fn lemma_scan_in_quote(s: Seq<char>, i: int, j: int, q: int)
    requires
        0 <= i <= j <= s.len(),
        q >= 0,
        forall|k: int| i <= k < j ==> #[trigger] s[k] != '"',
    ensures
        scan_items(s, i, q) == scan_items(s, j, q),
    decreases j - i,
{
    if i < j {
        lemma_scan_in_quote(s, i + 1, j, q);
    }
}

proof fn lemma_scan_none(s: Seq<char>, i: int, m: int)
    requires
        0 <= i <= m <= s.len(),
        forall|k: int| i <= k < m ==> #[trigger] s[k] != '"' && s[k] != ']' && s[k] != '#',
        m == s.len() || s[m] == '#',
    ensures
        scan_items(s, i, -1).0 == Seq::<Seq<char>>::empty(),
    decreases m - i,
{
    if i < m {
        lemma_scan_none(s, i + 1, m);
    }
}

/// Text that can stand in a list of trackers: between quotes, and with no `=`.
pub open spec fn list_safe(v: Seq<char>) -> bool {
    quotable(v) && forall|i: int| 0 <= i < v.len() ==> #[trigger] v[i] != '='
}

/// A label that a list line can carry.
pub open spec fn label_safe(l: Option<Seq<char>>) -> bool {
    l matches Some(n) ==> forall|i: int| 0 <= i < n.len() ==> #[trigger] n[i] != '=' && n[i] != '\n'
}

/// A tracker line of a list adds its tracker to the open list.
#[verifier::rlimit(60)]
pub proof fn lemma_list_item_read(
    st: ReadState,
    key: Seq<char>,
    items: Seq<Seq<char>>,
    t: Seq<char>,
    label: Option<Seq<char>>,
    width: int,
)
    requires
        st.list == Some((key, items)),
        list_safe(t),
        label_safe(label),
    ensures
        read_line(st, aligned(commentify(labelled("   "@ + quoted(t) + ","@, label)), width)) == (
        ReadState { list: Some((key, items.push(t))), ..st }),
{
    reveal_strlit("   ");
    reveal_strlit("\"");
    reveal_strlit(",");
    reveal_strlit(" # ");
    let q = quoted(t);
    let tail = comment_tail(label);
    let l = labelled("   "@ + q + ","@, label);
    let rest = ","@ + tail;
    assert(l =~= Seq::new(3, |i: int| ' ') + q + rest);
    assert(!is_derived(l));
    assert forall|i: int| 0 <= i < l.len() implies #[trigger] l[i] != '=' by {
        if 3 <= i < 3 + q.len() && 4 <= i < 4 + t.len() {
            assert(l[i] == t[i - 4]);
        }
        if i >= 3 + q.len() + 4 {
            assert(l[i] == label->Some_0[i - (3 + q.len() + 4)]);
        }
    }
    lemma_find_eq_none(l, 0);
    assert(!is_keyed(l));
    lemma_trim_prefix(3, q, rest);
    let tr = trim(l);
    assert(tr[0] == q[0]);
    assert(tr[0] != ']');
    // the scan: one quoted string, then a comma and maybe a comment
    assert forall|k: int| 1 <= k < 1 + t.len() implies #[trigger] tr[k] != '"' by {
        assert(tr[k] == q[k]);
    }
    lemma_scan_in_quote(tr, 1, 1 + t.len() as int, 1);
    assert(tr[1 + t.len() as int] == q[1 + t.len() as int]);
    assert(tr.subrange(1, 1 + t.len() as int) =~= t) by {
        assert forall|k: int| 0 <= k < t.len() implies tr.subrange(1, 1 + t.len() as int)[k] == t[k] by {
            assert(tr[1 + k] == q[1 + k]);
        }
    }
    // after the closing quote, nothing more is read
    let base = q.len() as int;
    assert(l.subrange(3, l.len() as int) =~= q + rest);
    let r3 = l.subrange(3, l.len() as int);
    assert(tr =~= r3.subrange(0, r3.len() - trailing_ws(r3))) by {
        lemma_ws_run_is(l, 0, 3);
    }
    reveal_strlit(" #");
    if label is Some {
        assert((q + ","@ + " #"@).last() == '#');
        reveal_strlit(" ");
        lemma_trailing_le(q + ","@ + " #"@, " "@ + label->Some_0);
        assert(r3 =~= (q + ","@ + " #"@) + (" "@ + label->Some_0));
        assert(tr.len() >= base + 3);
        assert(tr[base] == ',');
        assert(tr[base + 1] == ' ');
        assert(tr[base + 2] == '#');
        lemma_scan_none(tr, base, base + 2);
    } else {
        assert(r3 =~= q + ","@);
        lemma_trailing_is(r3, 0);
        assert(tr.len() == base + 1);
        lemma_scan_none(tr, base, base + 1);
    }
    assert(scan_items(tr, 0, -1).0 =~= seq![t]);
    assert(aligned(commentify(l), width) == l);
    assert(items + seq![t] =~= items.push(t));
}

/// `]` closes the list and adds it as a field.
pub proof fn lemma_list_close_read(st: ReadState, key: Seq<char>, items: Seq<Seq<char>>, width: int)
    requires
        st.list == Some((key, items)),
    ensures
        read_line(st, aligned(commentify("]"@), width)) == add_field(
            ReadState { list: None, ..st },
            (key, ValueView::List(items)),
        ),
{
    reveal_strlit("]");
    let l = "]"@;
    assert(!is_derived(l));
    lemma_find_eq_none(l, 0);
    assert(!is_keyed(l));
    lemma_ws_run_is(l, 0, 0);
    lemma_trailing_is(l, 0);
    assert(trim(l) =~= l);
}

/// The state after reading the lines `ls`, in order, from `st`.
pub open spec fn read_from(st: ReadState, ls: Seq<Seq<char>>) -> ReadState
    decreases ls.len(),
{
    if ls.len() == 0 {
        st
    } else {
        read_line(read_from(st, ls.drop_last()), ls.last())
    }
}

pub proof fn lemma_read_from_concat(st: ReadState, a: Seq<Seq<char>>, b: Seq<Seq<char>>)
    ensures
        read_from(st, a + b) == read_from(read_from(st, a), b),
    decreases b.len(),
{
    if b.len() == 0 {
        assert(a + b =~= a);
    } else {
        assert((a + b).drop_last() =~= a + b.drop_last());
        lemma_read_from_concat(st, a, b.drop_last());
    }
}

pub proof fn lemma_read_lines_from(ls: Seq<Seq<char>>)
    ensures
        read_lines(ls) == read_from(
            ReadState { header: Seq::empty(), blocks: Seq::empty(), list: None },
            ls,
        ),
    decreases ls.len(),
{
    if ls.len() > 0 {
        lemma_read_lines_from(ls.drop_last());
    }
}

/// The lines as a log's text lays them out with keys padded to `width`.
pub open spec fn lay(ls: Seq<Seq<char>>, width: int) -> Seq<Seq<char>> {
    ls.map_values(|l: Seq<char>| aligned(commentify(l), width))
}

pub proof fn lemma_lay_concat(a: Seq<Seq<char>>, b: Seq<Seq<char>>, width: int)
    ensures
        lay(a + b, width) == lay(a, width) + lay(b, width),
{
    assert(lay(a + b, width) =~= lay(a, width) + lay(b, width));
}

/// Every `key = value` line of `ls` has a key of at most `width` bytes.
pub open spec fn covers(ls: Seq<Seq<char>>, width: int) -> bool {
    forall|i: int|
        0 <= i < ls.len() && is_keyed(commentify(#[trigger] ls[i])) ==> utf8_len(
            key_of(commentify(ls[i])),
        ) <= width
}

proof fn lemma_covers_split(a: Seq<Seq<char>>, b: Seq<Seq<char>>, width: int)
    requires
        covers(a + b, width),
    ensures
        covers(a, width),
        covers(b, width),
{
    assert forall|i: int| 0 <= i < a.len() implies #[trigger] a[i] == (a + b)[i] by {}
    assert forall|i: int| 0 <= i < b.len() implies #[trigger] b[i] == (a + b)[a.len() + i] by {}
}

proof fn lemma_read_one(st: ReadState, l: Seq<char>, width: int)
    ensures
        read_from(st, lay(seq![l], width)) == read_line(st, aligned(commentify(l), width)),
{
    let x = lay(seq![l], width);
    assert(x =~= seq![aligned(commentify(l), width)]);
    assert(x.drop_last() =~= Seq::<Seq<char>>::empty());
    assert(read_from(st, x.drop_last()) == st);
    assert(x.last() == aligned(commentify(l), width));
}

/// A `key = "value"` line whose key the width covers reads as its field.
proof fn lemma_kv_one(st: ReadState, k: Seq<char>, v: Seq<char>, label: Option<Seq<char>>, width: int)
    requires
        st.list is None,
        log_key(k),
        quotable(v),
        covers(seq![kv(k, v) + comment_tail(label)], width),
    ensures
        read_from(st, lay(seq![kv(k, v) + comment_tail(label)], width)) == add_field(
            st,
            (k, ValueView::Str(v)),
        ),
{
    lemma_kv_key(k, v, label);
    assert(seq![kv(k, v) + comment_tail(label)][0] == kv(k, v) + comment_tail(label));
    lemma_kv_line_read(st, k, v, label, width);
    lemma_read_one(st, kv(k, v) + comment_tail(label), width);
}

pub open spec fn opt_field(k: Seq<char>, o: Option<Seq<char>>) -> Seq<(Seq<char>, ValueView)> {
    match o {
        Some(v) => seq![(k, ValueView::Str(v))],
        None => Seq::empty(),
    }
}

/// The state with `fs` added, field by field.
pub open spec fn add_fields(st: ReadState, fs: Seq<(Seq<char>, ValueView)>) -> ReadState
    decreases fs.len(),
{
    if fs.len() == 0 {
        st
    } else {
        add_field(add_fields(st, fs.drop_last()), fs.last())
    }
}

proof fn lemma_add_fields_concat(st: ReadState, a: Seq<(Seq<char>, ValueView)>, b: Seq<(Seq<char>, ValueView)>)
    ensures
        add_fields(st, a + b) == add_fields(add_fields(st, a), b),
    decreases b.len(),
{
    if b.len() == 0 {
        assert(a + b =~= a);
    } else {
        assert((a + b).drop_last() =~= a + b.drop_last());
        lemma_add_fields_concat(st, a, b.drop_last());
    }
}

proof fn lemma_add_fields_list(st: ReadState, fs: Seq<(Seq<char>, ValueView)>)
    ensures
        add_fields(st, fs).list == st.list,
        st.blocks.len() > 0 ==> add_fields(st, fs) == (ReadState {
            blocks: st.blocks.update(st.blocks.len() - 1, st.blocks.last() + fs),
            ..st
        }),
    decreases fs.len(),
{
    if fs.len() > 0 {
        lemma_add_fields_list(st, fs.drop_last());
        if st.blocks.len() > 0 {
            let prev = add_fields(st, fs.drop_last());
            assert(prev.blocks.last() == st.blocks.last() + fs.drop_last());
            assert(st.blocks.last() + fs.drop_last() + seq![fs.last()] =~= st.blocks.last() + fs);
            assert(prev.blocks.len() == st.blocks.len());
            assert(prev.blocks.last().push(fs.last()) =~= st.blocks.last() + fs);
            assert(prev.blocks.update(prev.blocks.len() - 1, prev.blocks.last().push(fs.last()))
                =~= st.blocks.update(st.blocks.len() - 1, st.blocks.last() + fs));
        }
    } else {
        if st.blocks.len() > 0 {
            assert(st.blocks.last() + fs =~= st.blocks.last());
            assert(st.blocks.update(st.blocks.len() - 1, st.blocks.last()) =~= st.blocks);
        }
    }
}

proof fn lemma_opt_line_read(st: ReadState, k: Seq<char>, o: Option<Seq<char>>, width: int)
    requires
        st.list is None,
        log_key(k),
        o matches Some(v) ==> quotable(v),
        covers(crate::codec::opt_line(k, o), width),
    ensures
        read_from(st, lay(crate::codec::opt_line(k, o), width)) == add_fields(st, opt_field(k, o)),
{
    match o {
        Some(v) => {
            assert(kv(k, v) + comment_tail(None) =~= kv(k, v));
            assert(crate::codec::opt_line(k, o) =~= seq![kv(k, v) + comment_tail(None)]);
            lemma_kv_one(st, k, v, None, width);
            assert(opt_field(k, o).drop_last() =~= Seq::<(Seq<char>, ValueView)>::empty());
            assert(add_fields(st, Seq::<(Seq<char>, ValueView)>::empty()) == st);
            assert(opt_field(k, o).last() == (k, ValueView::Str(v)));
        },
        None => {
            assert(lay(crate::codec::opt_line(k, o), width) =~= Seq::<Seq<char>>::empty());
        },
    }
}

proof fn lemma_list_open_key()
    ensures
        commentify("trackers = ["@) == "trackers = ["@,
        is_keyed("trackers = ["@),
        key_of("trackers = ["@) == "trackers"@,
        utf8_len("trackers"@) == 8,
{
    reveal_strlit("trackers = [");
    reveal_strlit("trackers");
    let l = "trackers = ["@;
    assert(!is_derived(l));
    assert forall|i: int| 0 <= i < 9 implies #[trigger] l[i] != '=' by {}
    lemma_find_eq_is(l, 0, 9);
    lemma_ws_run_is(l, 0, 0);
    let kp = l.subrange(0, 9);
    lemma_ws_run_is(kp, 0, 0);
    assert(kp.subrange(0, 9) =~= kp);
    lemma_trailing_is(kp, 1);
    assert(key_of(l) =~= "trackers"@);
    reveal_with_fuel(utf8_len, 9);
}

/// Trackers that a log's text can hold: each between quotes with a label of
/// one line; with no `=` in them or their labels when there are several.
pub open spec fn trackers_safe(ts: Seq<Seq<char>>, ls: Seq<(Seq<char>, Seq<char>)>) -> bool {
    &&& forall|i: int| 0 <= i < ts.len() ==> quotable(#[trigger] ts[i])
    &&& forall|i: int| 0 <= i < ts.len() ==> no_nl_opt(label_of(ls, #[trigger] ts[i]))
    &&& ts.len() >= 2 ==> forall|i: int|
        0 <= i < ts.len() ==> list_safe(#[trigger] ts[i]) && label_safe(label_of(ls, ts[i]))
}

pub open spec fn tracker_field(ts: Seq<Seq<char>>) -> Seq<(Seq<char>, ValueView)> {
    if ts.len() == 0 {
        Seq::empty()
    } else if ts.len() == 1 {
        seq![("trackers"@, ValueView::Str(ts[0]))]
    } else {
        seq![("trackers"@, ValueView::List(ts))]
    }
}

proof fn lemma_items_read(
    st: ReadState,
    ts: Seq<Seq<char>>,
    ls: Seq<(Seq<char>, Seq<char>)>,
    j: int,
    width: int,
)
    requires
        st.list == Some(("trackers"@, Seq::<Seq<char>>::empty())),
        0 <= j <= ts.len(),
        forall|i: int| 0 <= i < ts.len() ==> list_safe(#[trigger] ts[i]) && label_safe(label_of(ls, ts[i])),
    ensures
        read_from(st, lay(ts.subrange(0, j).map_values(|t: Seq<char>| tracker_item(t, ls)), width))
            == (ReadState { list: Some(("trackers"@, ts.subrange(0, j))), ..st }),
    decreases j,
{
    let f = |t: Seq<char>| tracker_item(t, ls);
    if j == 0 {
        assert(lay(ts.subrange(0, 0).map_values(f), width) =~= Seq::<Seq<char>>::empty());
        assert(ts.subrange(0, 0) =~= Seq::<Seq<char>>::empty());
    } else {
        lemma_items_read(st, ts, ls, j - 1, width);
        let prev = ts.subrange(0, j - 1).map_values(f);
        assert(ts.subrange(0, j).map_values(f) =~= prev + seq![f(ts[j - 1])]);
        lemma_lay_concat(prev, seq![f(ts[j - 1])], width);
        lemma_read_from_concat(st, lay(prev, width), lay(seq![f(ts[j - 1])], width));
        let mid = ReadState { list: Some(("trackers"@, ts.subrange(0, j - 1))), ..st };
        lemma_read_one(mid, f(ts[j - 1]), width);
        lemma_list_item_read(mid, "trackers"@, ts.subrange(0, j - 1), ts[j - 1], label_of(ls, ts[j - 1]), width);
        assert(ts.subrange(0, j - 1).push(ts[j - 1]) =~= ts.subrange(0, j));
    }
}

#[verifier::rlimit(60)]
proof fn lemma_tracker_lines_read(
    st: ReadState,
    ts: Seq<Seq<char>>,
    ls: Seq<(Seq<char>, Seq<char>)>,
    width: int,
)
    requires
        st.list is None,
        trackers_safe(ts, ls),
        covers(tracker_lines(ts, ls), width),
    ensures
        read_from(st, lay(tracker_lines(ts, ls), width)) == add_fields(st, tracker_field(ts)),
{
    reveal_strlit("trackers");
    let k = "trackers"@;
    assert(log_key(k));
    if ts.len() == 0 {
        assert(lay(tracker_lines(ts, ls), width) =~= Seq::<Seq<char>>::empty());
    } else if ts.len() == 1 {
        let label = label_of(ls, ts[0]);
        assert(labelled(kv(k, ts[0]), label) =~= kv(k, ts[0]) + comment_tail(label));
        assert(tracker_lines(ts, ls) =~= seq![kv(k, ts[0]) + comment_tail(label)]);
        lemma_kv_one(st, k, ts[0], label, width);
        assert(add_fields(st, Seq::<(Seq<char>, ValueView)>::empty()) == st);
        assert(tracker_field(ts).drop_last() =~= Seq::<(Seq<char>, ValueView)>::empty());
    } else {
        let f = |t: Seq<char>| tracker_item(t, ls);
        let open = seq!["trackers = ["@];
        let items = ts.map_values(f);
        let close = seq!["]"@];
        assert(tracker_lines(ts, ls) == open + items + close);
        lemma_covers_split(open + items, close, width);
        lemma_covers_split(open, items, width);
        lemma_list_open_key();
        assert(open[0] == "trackers = ["@);
        lemma_lay_concat(open + items, close, width);
        lemma_lay_concat(open, items, width);
        lemma_read_from_concat(st, lay(open, width) + lay(items, width), lay(close, width));
        lemma_read_from_concat(st, lay(open, width), lay(items, width));
        lemma_read_one(st, "trackers = ["@, width);
        lemma_list_open_read(st, width);
        let s1 = ReadState { list: Some((k, Seq::<Seq<char>>::empty())), ..st };
        lemma_items_read(s1, ts, ls, ts.len() as int, width);
        assert(ts.subrange(0, ts.len() as int) =~= ts);
        let s2 = ReadState { list: Some((k, ts)), ..st };
        lemma_read_one(s2, "]"@, width);
        lemma_list_close_read(s2, k, ts, width);
        assert(ReadState { list: None, ..s2 } == st);
        assert(add_fields(st, Seq::<(Seq<char>, ValueView)>::empty()) == st);
        assert(tracker_field(ts).drop_last() =~= Seq::<(Seq<char>, ValueView)>::empty());
    }
}

proof fn lemma_keys()
    ensures
        log_key("alias"@),
        log_key("role"@),
        log_key("objective"@),
        log_key("action"@),
        log_key("subject"@),
        log_key("start"@),
        log_key("end"@),
        log_key("note"@),
        log_key("duration"@),
        log_key("version"@),
        log_key("date"@),
        log_key("timezone"@),
        log_key("date_format"@),
        "--duration"@ == "--"@ + "duration"@,
        "--date_format"@ == "--"@ + "date_format"@,
{
    reveal_strlit("alias");
    reveal_strlit("role");
    reveal_strlit("objective");
    reveal_strlit("action");
    reveal_strlit("subject");
    reveal_strlit("start");
    reveal_strlit("end");
    reveal_strlit("note");
    reveal_strlit("duration");
    reveal_strlit("version");
    reveal_strlit("date");
    reveal_strlit("timezone");
    reveal_strlit("date_format");
    reveal_strlit("--duration");
    reveal_strlit("--date_format");
    reveal_strlit("--");
    assert("--duration"@ =~= "--"@ + "duration"@);
    assert("--date_format"@ =~= "--"@ + "date_format"@);
}

/// The clock text of an instant holds digits, `:` and a sign only.
pub proof fn lemma_clock_quotable(t: ZonedTime, z: bool)
    requires
        t.wf(),
    ensures
        quotable(clock_text(t, z)),
{
    let s = t.second_of_day();
    lemma_two_digits(s / 3600);
    lemma_two_digits((s % 3600) / 60);
    reveal_strlit(":");
    let base = two_digits(s / 3600) + seq![':'] + two_digits((s % 3600) / 60);
    assert(quotable(base));
    if z {
        let o = t.offset as int;
        let a = if o < 0 {
            -o
        } else {
            o
        };
        lemma_two_digits(a / 3600);
        lemma_two_digits((a % 3600) / 60);
        assert(quotable(offset_text(o)));
        assert(quotable(base + offset_text(o)));
    }
}

/// The fields that a session's block holds.
pub open spec fn session_fields(s: SessionView, z: bool) -> Seq<(Seq<char>, ValueView)> {
    opt_field("alias"@, s.intent.alias) + opt_field("role"@, s.intent.role) + opt_field(
        "objective"@,
        s.intent.objective,
    ) + opt_field("action"@, s.intent.action) + opt_field("subject"@, s.intent.subject)
        + tracker_field(s.intent.trackers) + seq![("start"@, ValueView::Str(clock_text(s.start, z)))]
        + match s.end {
        Some(e) => seq![("end"@, ValueView::Str(clock_text(e, z)))],
        None => Seq::empty(),
    } + match s.note {
        Some(n) => if n.len() > 0 {
            seq![("note"@, ValueView::Str(n))]
        } else {
            Seq::empty()
        },
        None => Seq::empty(),
    }
}

/// A session whose text a log can hold and read back.
pub open spec fn session_safe(s: SessionView, ls: Seq<(Seq<char>, Seq<char>)>) -> bool {
    &&& s.wf()
    &&& s.intent.alias matches Some(a) && quotable(a)
    &&& s.intent.role matches Some(v) ==> quotable(v)
    &&& s.intent.objective matches Some(v) ==> quotable(v)
    &&& s.intent.action matches Some(v) ==> quotable(v)
    &&& s.intent.subject matches Some(v) ==> quotable(v)
    &&& trackers_safe(s.intent.trackers, ls)
    &&& s.note matches Some(n) ==> quotable(n) && n.len() > 0
}

#[verifier::rlimit(60)]
proof fn lemma_intent_lines_read(st: ReadState, s: SessionView, ls: Seq<(Seq<char>, Seq<char>)>, width: int)
    requires
        st.list is None,
        session_safe(s, ls),
        covers(intent_lines(s, ls), width),
    ensures
        read_from(st, lay(intent_lines(s, ls), width)) == add_fields(
            st,
            opt_field("alias"@, s.intent.alias) + opt_field("role"@, s.intent.role) + opt_field(
                "objective"@,
                s.intent.objective,
            ) + opt_field("action"@, s.intent.action) + opt_field("subject"@, s.intent.subject)
                + tracker_field(s.intent.trackers),
        ),
{
    lemma_keys();
    let a = opt_line("alias"@, s.intent.alias);
    let b = opt_line("role"@, s.intent.role);
    let c = opt_line("objective"@, s.intent.objective);
    let d = opt_line("action"@, s.intent.action);
    let e = opt_line("subject"@, s.intent.subject);
    let f = tracker_lines(s.intent.trackers, ls);
    let fa = opt_field("alias"@, s.intent.alias);
    let fb = opt_field("role"@, s.intent.role);
    let fc = opt_field("objective"@, s.intent.objective);
    let fd = opt_field("action"@, s.intent.action);
    let fe = opt_field("subject"@, s.intent.subject);
    let ff = tracker_field(s.intent.trackers);
    assert(intent_lines(s, ls) == a + b + c + d + e + f);
    lemma_covers_split(a + b + c + d + e, f, width);
    lemma_covers_split(a + b + c + d, e, width);
    lemma_covers_split(a + b + c, d, width);
    lemma_covers_split(a + b, c, width);
    lemma_covers_split(a, b, width);
    lemma_lay_concat(a + b + c + d + e, f, width);
    lemma_lay_concat(a + b + c + d, e, width);
    lemma_lay_concat(a + b + c, d, width);
    lemma_lay_concat(a + b, c, width);
    lemma_lay_concat(a, b, width);
    let la = lay(a, width);
    let lb = lay(b, width);
    let lc = lay(c, width);
    let ld = lay(d, width);
    let le = lay(e, width);
    let lf = lay(f, width);
    lemma_read_from_concat(st, la + lb + lc + ld + le, lf);
    lemma_read_from_concat(st, la + lb + lc + ld, le);
    lemma_read_from_concat(st, la + lb + lc, ld);
    lemma_read_from_concat(st, la + lb, lc);
    lemma_read_from_concat(st, la, lb);
    lemma_opt_line_read(st, "alias"@, s.intent.alias, width);
    let s1 = add_fields(st, fa);
    lemma_add_fields_list(st, fa);
    lemma_opt_line_read(s1, "role"@, s.intent.role, width);
    let s2 = add_fields(s1, fb);
    lemma_add_fields_list(s1, fb);
    lemma_opt_line_read(s2, "objective"@, s.intent.objective, width);
    let s3 = add_fields(s2, fc);
    lemma_add_fields_list(s2, fc);
    lemma_opt_line_read(s3, "action"@, s.intent.action, width);
    let s4 = add_fields(s3, fd);
    lemma_add_fields_list(s3, fd);
    lemma_opt_line_read(s4, "subject"@, s.intent.subject, width);
    let s5 = add_fields(s4, fe);
    lemma_add_fields_list(s4, fe);
    lemma_tracker_lines_read(s5, s.intent.trackers, ls, width);
    lemma_add_fields_concat(st, fa, fb);
    lemma_add_fields_concat(st, fa + fb, fc);
    lemma_add_fields_concat(st, fa + fb + fc, fd);
    lemma_add_fields_concat(st, fa + fb + fc + fd, fe);
    lemma_add_fields_concat(st, fa + fb + fc + fd + fe, ff);
}

pub open spec fn time_fields(s: SessionView, z: bool) -> Seq<(Seq<char>, ValueView)> {
    seq![("start"@, ValueView::Str(clock_text(s.start, z)))] + match s.end {
        Some(e) => seq![("end"@, ValueView::Str(clock_text(e, z)))],
        None => Seq::empty(),
    }
}

pub open spec fn note_field(s: SessionView) -> Seq<(Seq<char>, ValueView)> {
    match s.note {
        Some(n) => if n.len() > 0 {
            seq![("note"@, ValueView::Str(n))]
        } else {
            Seq::empty()
        },
        None => Seq::empty(),
    }
}

proof fn lemma_time_lines_read(st: ReadState, s: SessionView, z: bool, width: int)
    requires
        st.list is None,
        s.wf(),
        covers(time_lines(s, z), width),
    ensures
        read_from(st, lay(time_lines(s, z), width)) == add_fields(st, time_fields(s, z)),
{
    lemma_keys();
    lemma_clock_quotable(s.start, z);
    let sl = seq![kv("start"@, clock_text(s.start, z)) + comment_tail(None)];
    assert(kv("start"@, clock_text(s.start, z)) + comment_tail(None) =~= kv("start"@, clock_text(s.start, z)));
    let sf = seq![("start"@, ValueView::Str(clock_text(s.start, z)))];
    match s.end {
        Some(e) => {
            lemma_clock_quotable(e, z);
            let el = seq![kv("end"@, clock_text(e, z)) + comment_tail(None)];
            assert(kv("end"@, clock_text(e, z)) + comment_tail(None) =~= kv("end"@, clock_text(e, z)));
            let dl = seq![kv("--duration"@, duration_text(e.utc - s.start.utc))];
            assert(time_lines(s, z) =~= sl + el + dl);
            lemma_covers_split(sl + el, dl, width);
            lemma_covers_split(sl, el, width);
            lemma_lay_concat(sl + el, dl, width);
            lemma_lay_concat(sl, el, width);
            lemma_read_from_concat(st, lay(sl, width) + lay(el, width), lay(dl, width));
            lemma_read_from_concat(st, lay(sl, width), lay(el, width));
            lemma_kv_one(st, "start"@, clock_text(s.start, z), None, width);
            let s1 = add_field(st, ("start"@, ValueView::Str(clock_text(s.start, z))));
            lemma_kv_one(s1, "end"@, clock_text(e, z), None, width);
            let s2 = add_field(s1, ("end"@, ValueView::Str(clock_text(e, z))));
            lemma_read_one(s2, kv("--duration"@, duration_text(e.utc - s.start.utc)), width);
            lemma_derived_line_read(s2, "duration"@, duration_text(e.utc - s.start.utc), width);
            assert(read_from(st, lay(sl, width)) == s1);
            assert(read_from(s1, lay(el, width)) == s2);
            assert(read_from(s2, lay(dl, width)) == s2);
            assert(read_from(st, lay(time_lines(s, z), width)) == s2);
            let ef = seq![("end"@, ValueView::Str(clock_text(e, z)))];
            assert(time_fields(s, z) =~= sf + ef);
            assert(add_fields(st, sf) == s1) by {
                assert(sf.drop_last() =~= Seq::<(Seq<char>, ValueView)>::empty());
                assert(add_fields(st, Seq::<(Seq<char>, ValueView)>::empty()) == st);
            }
            assert((sf + ef).drop_last() =~= sf);
            assert(sf.drop_last() =~= Seq::<(Seq<char>, ValueView)>::empty());
            assert(add_fields(st, Seq::<(Seq<char>, ValueView)>::empty()) == st);
        },
        None => {
            assert(time_lines(s, z) =~= sl);
            lemma_kv_one(st, "start"@, clock_text(s.start, z), None, width);
            assert(time_fields(s, z) =~= sf);
            assert(sf.drop_last() =~= Seq::<(Seq<char>, ValueView)>::empty());
            assert(add_fields(st, Seq::<(Seq<char>, ValueView)>::empty()) == st);
        },
    }
}

proof fn lemma_note_lines_read(st: ReadState, s: SessionView, ls: Seq<(Seq<char>, Seq<char>)>, width: int)
    requires
        st.list is None,
        session_safe(s, ls),
        covers(note_lines(s), width),
    ensures
        read_from(st, lay(note_lines(s), width)) == add_fields(st, note_field(s)),
{
    lemma_keys();
    match s.note {
        Some(n) => {
            assert(kv("note"@, n) + comment_tail(None) =~= kv("note"@, n));
            assert(note_lines(s) =~= seq![kv("note"@, n) + comment_tail(None)]);
            lemma_kv_one(st, "note"@, n, None, width);
            assert(note_field(s).drop_last() =~= Seq::<(Seq<char>, ValueView)>::empty());
            assert(add_fields(st, Seq::<(Seq<char>, ValueView)>::empty()) == st);
        },
        None => {
            assert(lay(note_lines(s), width) =~= Seq::<Seq<char>>::empty());
        },
    }
}

/// A session's block, read after any block, adds a block with its fields.
#[verifier::rlimit(60)]
pub proof fn lemma_session_block_read(
    st: ReadState,
    s: SessionView,
    ls: Seq<(Seq<char>, Seq<char>)>,
    z: bool,
    width: int,
)
    requires
        st.list is None,
        session_safe(s, ls),
        covers(session_lines(s, ls, z), width),
    ensures
        read_from(st, lay(session_lines(s, ls, z), width)) == (ReadState {
            blocks: st.blocks.push(session_fields(s, z)),
            ..st
        }),
{
    let h = seq![""@, "[[timeline]]"@];
    let il = intent_lines(s, ls);
    let tl = time_lines(s, z);
    let nl = note_lines(s);
    assert(session_lines(s, ls, z) == h + il + tl + nl);
    lemma_covers_split(h + il + tl, nl, width);
    lemma_covers_split(h + il, tl, width);
    lemma_covers_split(h, il, width);
    lemma_lay_concat(h + il + tl, nl, width);
    lemma_lay_concat(h + il, tl, width);
    lemma_lay_concat(h, il, width);
    lemma_read_from_concat(st, lay(h, width) + lay(il, width) + lay(tl, width), lay(nl, width));
    lemma_read_from_concat(st, lay(h, width) + lay(il, width), lay(tl, width));
    lemma_read_from_concat(st, lay(h, width), lay(il, width));
    // the blank line and the block header
    let l0 = seq![""@];
    let l1 = seq!["[[timeline]]"@];
    assert(h == l0 + l1);
    lemma_lay_concat(l0, l1, width);
    lemma_read_from_concat(st, lay(l0, width), lay(l1, width));
    lemma_read_one(st, ""@, width);
    assert(""@ == Seq::<char>::empty()) by {
        reveal_strlit("");
    }
    lemma_empty_line_read(st, width);
    lemma_read_one(st, "[[timeline]]"@, width);
    lemma_block_line_read(st, width);
    let s0 = ReadState { blocks: st.blocks.push(Seq::empty()), ..st };
    lemma_intent_lines_read(s0, s, ls, width);
    let fi = opt_field("alias"@, s.intent.alias) + opt_field("role"@, s.intent.role) + opt_field(
        "objective"@,
        s.intent.objective,
    ) + opt_field("action"@, s.intent.action) + opt_field("subject"@, s.intent.subject)
        + tracker_field(s.intent.trackers);
    let s1 = add_fields(s0, fi);
    lemma_add_fields_list(s0, fi);
    lemma_time_lines_read(s1, s, z, width);
    let ft = time_fields(s, z);
    let s2 = add_fields(s1, ft);
    lemma_add_fields_list(s1, ft);
    lemma_note_lines_read(s2, s, ls, width);
    let fnote = note_field(s);
    lemma_add_fields_concat(s0, fi, ft);
    lemma_add_fields_concat(s0, fi + ft, fnote);
    assert(session_fields(s, z) =~= fi + ft + fnote);
    lemma_add_fields_list(s0, fi + ft + fnote);
    assert(s0.blocks.update(s0.blocks.len() - 1, s0.blocks.last() + (fi + ft + fnote))
        =~= st.blocks.push(session_fields(s, z)));
}

/// The blocks of the sessions read after a state add a block each.
#[verifier::rlimit(60)]
pub proof fn lemma_blocks_read(
    st: ReadState,
    ss: Seq<SessionView>,
    ls: Seq<(Seq<char>, Seq<char>)>,
    z: bool,
    width: int,
)
    requires
        st.list is None,
        forall|i: int| 0 <= i < ss.len() ==> session_safe(#[trigger] ss[i], ls),
        covers(blocks(ss, ls, z), width),
    ensures
        read_from(st, lay(blocks(ss, ls, z), width)) == (ReadState {
            blocks: st.blocks + ss.map_values(|s: SessionView| session_fields(s, z)),
            ..st
        }),
    decreases ss.len(),
{
    if ss.len() == 0 {
        assert(lay(blocks(ss, ls, z), width) =~= Seq::<Seq<char>>::empty());
        assert(st.blocks + ss.map_values(|s: SessionView| session_fields(s, z)) =~= st.blocks);
    } else {
        let init = ss.drop_last();
        assert forall|i: int| 0 <= i < init.len() implies session_safe(#[trigger] init[i], ls) by {
            assert(init[i] == ss[i]);
        }
        lemma_covers_split(blocks(init, ls, z), session_lines(ss.last(), ls, z), width);
        lemma_blocks_read(st, init, ls, z, width);
        lemma_lay_concat(blocks(init, ls, z), session_lines(ss.last(), ls, z), width);
        lemma_read_from_concat(
            st,
            lay(blocks(init, ls, z), width),
            lay(session_lines(ss.last(), ls, z), width),
        );
        let mid = ReadState {
            blocks: st.blocks + init.map_values(|s: SessionView| session_fields(s, z)),
            ..st
        };
        assert(ss[ss.len() - 1] == ss.last());
        lemma_session_block_read(mid, ss.last(), ls, z, width);
        assert(mid.blocks.push(session_fields(ss.last(), z)) =~= st.blocks + ss.map_values(
            |s: SessionView| session_fields(s, z),
        ));
    }
}

/// A log's header lines give its version, date and zone.
#[verifier::rlimit(60)]
pub proof fn lemma_header_read(l: LogView, z: bool, width: int)
    requires
        l.date.wf(),
        quotable(l.timezone),
        covers(header_lines(l, z), width),
    ensures
        read_from(
            ReadState { header: Seq::empty(), blocks: Seq::empty(), list: None },
            lay(header_lines(l, z), width),
        ) == (ReadState {
            header: seq![
                ("version"@, ValueView::Str("1.1"@)),
                ("date"@, ValueView::Str(date_text(l.date))),
                ("timezone"@, ValueView::Str(l.timezone)),
            ],
            blocks: Seq::empty(),
            list: None,
        }),
{
    lemma_keys();
    let c1 = "# This is a Faff-format log file - see faffage.com for details."@;
    let c2 = "# It has been generated but can be edited manually."@;
    let c3 = "# Changes to rows starting with '#' will not be saved."@;
    reveal_strlit("# This is a Faff-format log file - see faffage.com for details.");
    reveal_strlit("# It has been generated but can be edited manually.");
    reveal_strlit("# Changes to rows starting with '#' will not be saved.");
    reveal_strlit("1.1");
    reveal_strlit("HH:mmZ");
    reveal_strlit("HH:mm");
    let fmt = if z {
        "HH:mmZ"@
    } else {
        "HH:mm"@
    };
    let dt = date_text(l.date);
    assert(quotable("1.1"@));
    assert(quotable(dt)) by {
        lemma_two_digits(l.date.year / 100);
        lemma_two_digits((l.date.year % 100) as int);
        lemma_two_digits(l.date.month as int);
        lemma_two_digits(l.date.day as int);
        reveal_strlit("-");
    }
    let st0 = ReadState { header: Seq::empty(), blocks: Seq::empty(), list: None };
    let a = seq![c1];
    let b = seq![c2];
    let c = seq![c3];
    let d = seq![kv("version"@, "1.1"@) + comment_tail(None)];
    let e = seq![kv("date"@, dt) + comment_tail(None)];
    let f = seq![kv("timezone"@, l.timezone) + comment_tail(None)];
    let g = seq![kv("--date_format"@, fmt)];
    assert(kv("version"@, "1.1"@) + comment_tail(None) =~= kv("version"@, "1.1"@));
    assert(kv("date"@, dt) + comment_tail(None) =~= kv("date"@, dt));
    assert(kv("timezone"@, l.timezone) + comment_tail(None) =~= kv("timezone"@, l.timezone));
    assert(header_lines(l, z) =~= a + b + c + d + e + f + g);
    lemma_covers_split(a + b + c + d + e + f, g, width);
    lemma_covers_split(a + b + c + d + e, f, width);
    lemma_covers_split(a + b + c + d, e, width);
    lemma_covers_split(a + b + c, d, width);
    lemma_lay_concat(a + b + c + d + e + f, g, width);
    lemma_lay_concat(a + b + c + d + e, f, width);
    lemma_lay_concat(a + b + c + d, e, width);
    lemma_lay_concat(a + b + c, d, width);
    lemma_lay_concat(a + b, c, width);
    lemma_lay_concat(a, b, width);
    let la = lay(a, width);
    let lb = lay(b, width);
    let lc = lay(c, width);
    let ld = lay(d, width);
    let le = lay(e, width);
    let lf = lay(f, width);
    let lg = lay(g, width);
    lemma_read_from_concat(st0, la + lb + lc + ld + le + lf, lg);
    lemma_read_from_concat(st0, la + lb + lc + ld + le, lf);
    lemma_read_from_concat(st0, la + lb + lc + ld, le);
    lemma_read_from_concat(st0, la + lb + lc, ld);
    lemma_read_from_concat(st0, la + lb, lc);
    lemma_read_from_concat(st0, la, lb);
    lemma_read_one(st0, c1, width);
    lemma_comment_line_read(st0, c1, width);
    lemma_read_one(st0, c2, width);
    lemma_comment_line_read(st0, c2, width);
    lemma_read_one(st0, c3, width);
    lemma_comment_line_read(st0, c3, width);
    lemma_kv_one(st0, "version"@, "1.1"@, None, width);
    let s1 = add_field(st0, ("version"@, ValueView::Str("1.1"@)));
    lemma_kv_one(s1, "date"@, dt, None, width);
    let s2 = add_field(s1, ("date"@, ValueView::Str(dt)));
    lemma_kv_one(s2, "timezone"@, l.timezone, None, width);
    let s3 = add_field(s2, ("timezone"@, ValueView::Str(l.timezone)));
    lemma_read_one(s3, kv("--date_format"@, fmt), width);
    lemma_derived_line_read(s3, "date_format"@, fmt, width);
    assert(s3.header =~= seq![
        ("version"@, ValueView::Str("1.1"@)),
        ("date"@, ValueView::Str(dt)),
        ("timezone"@, ValueView::Str(l.timezone)),
    ]);
}

proof fn lemma_lookup_concat(a: Seq<(Seq<char>, ValueView)>, b: Seq<(Seq<char>, ValueView)>, k: Seq<char>)
    ensures
        lookup(a + b, k) == (match lookup(a, k) {
            Some(v) => Some(v),
            None => lookup(b, k),
        }),
    decreases a.len(),
{
    if a.len() == 0 {
        assert(a + b =~= b);
    } else {
        assert((a + b)[0] == a[0]);
        assert((a + b).drop_first() =~= a.drop_first() + b);
        lemma_lookup_concat(a.drop_first(), b, k);
    }
}

proof fn lemma_lookup_one(k1: Seq<char>, v: ValueView, k: Seq<char>)
    ensures
        lookup(seq![(k1, v)], k) == (if k1 == k {
            Some(v)
        } else {
            None::<ValueView>
        }),
{
    let one = seq![(k1, v)];
    assert(one.drop_first() =~= Seq::<(Seq<char>, ValueView)>::empty());
    assert(one[0] == (k1, v));
    assert(lookup(Seq::<(Seq<char>, ValueView)>::empty(), k) is None);
}

proof fn lemma_lookup_opt(k1: Seq<char>, o: Option<Seq<char>>, k: Seq<char>)
    ensures
        lookup(opt_field(k1, o), k) == (if k1 == k {
            match o {
                Some(v) => Some(ValueView::Str(v)),
                None => None::<ValueView>,
            }
        } else {
            None::<ValueView>
        }),
{
    if let Some(v) = o {
        lemma_lookup_one(k1, ValueView::Str(v), k);
    }
}

proof fn lemma_lookup_tracker_field(ts: Seq<Seq<char>>, k: Seq<char>)
    ensures
        lookup(tracker_field(ts), k) == (if "trackers"@ == k && ts.len() > 0 {
            Some(
                if ts.len() == 1 {
                    ValueView::Str(ts[0])
                } else {
                    ValueView::List(ts)
                },
            )
        } else {
            None::<ValueView>
        }),
{
    if ts.len() == 1 {
        lemma_lookup_one("trackers"@, ValueView::Str(ts[0]), k);
    } else if ts.len() > 1 {
        lemma_lookup_one("trackers"@, ValueView::List(ts), k);
    }
}

proof fn lemma_lookup_note(s: SessionView, k: Seq<char>)
    requires
        s.note matches Some(n) ==> n.len() > 0,
    ensures
        lookup(note_field(s), k) == (if "note"@ == k {
            match s.note {
                Some(n) => Some(ValueView::Str(n)),
                None => None::<ValueView>,
            }
        } else {
            None::<ValueView>
        }),
{
    if let Some(n) = s.note {
        lemma_lookup_one("note"@, ValueView::Str(n), k);
    }
}

proof fn lemma_lookup_end(s: SessionView, z: bool, k: Seq<char>)
    ensures
        lookup(
            match s.end {
                Some(e) => seq![("end"@, ValueView::Str(clock_text(e, z)))],
                None => Seq::empty(),
            },
            k,
        ) == (if "end"@ == k {
            match s.end {
                Some(e) => Some(ValueView::Str(clock_text(e, z))),
                None => None::<ValueView>,
            }
        } else {
            None::<ValueView>
        }),
{
    if let Some(e) = s.end {
        lemma_lookup_one("end"@, ValueView::Str(clock_text(e, z)), k);
    }
}

/// Looking a key up in a session's fields, part by part.
#[verifier::rlimit(60)]
proof fn lemma_session_lookup(s: SessionView, z: bool, k: Seq<char>)
    requires
        s.note matches Some(n) ==> n.len() > 0,
    ensures
        lookup(session_fields(s, z), k) == (if "alias"@ == k {
            match s.intent.alias {
                Some(v) => Some(ValueView::Str(v)),
                None => None,
            }
        } else if "role"@ == k {
            match s.intent.role {
                Some(v) => Some(ValueView::Str(v)),
                None => None,
            }
        } else if "objective"@ == k {
            match s.intent.objective {
                Some(v) => Some(ValueView::Str(v)),
                None => None,
            }
        } else if "action"@ == k {
            match s.intent.action {
                Some(v) => Some(ValueView::Str(v)),
                None => None,
            }
        } else if "subject"@ == k {
            match s.intent.subject {
                Some(v) => Some(ValueView::Str(v)),
                None => None,
            }
        } else if "trackers"@ == k {
            lookup(tracker_field(s.intent.trackers), k)
        } else if "start"@ == k {
            Some(ValueView::Str(clock_text(s.start, z)))
        } else if "end"@ == k {
            match s.end {
                Some(e) => Some(ValueView::Str(clock_text(e, z))),
                None => None,
            }
        } else if "note"@ == k {
            match s.note {
                Some(n) => Some(ValueView::Str(n)),
                None => None,
            }
        } else {
            None
        }),
{
    let fa = opt_field("alias"@, s.intent.alias);
    let fb = opt_field("role"@, s.intent.role);
    let fc = opt_field("objective"@, s.intent.objective);
    let fd = opt_field("action"@, s.intent.action);
    let fe = opt_field("subject"@, s.intent.subject);
    let ft = tracker_field(s.intent.trackers);
    let fs = seq![("start"@, ValueView::Str(clock_text(s.start, z)))];
    let fen: Seq<(Seq<char>, ValueView)> = match s.end {
        Some(e) => seq![("end"@, ValueView::Str(clock_text(e, z)))],
        None => Seq::empty(),
    };
    let fno = note_field(s);
    lemma_keys_differ();
    assert(session_fields(s, z) == fa + fb + fc + fd + fe + ft + fs + fen + fno);
    lemma_lookup_concat(fa + fb + fc + fd + fe + ft + fs + fen, fno, k);
    lemma_lookup_concat(fa + fb + fc + fd + fe + ft + fs, fen, k);
    lemma_lookup_concat(fa + fb + fc + fd + fe + ft, fs, k);
    lemma_lookup_concat(fa + fb + fc + fd + fe, ft, k);
    lemma_lookup_concat(fa + fb + fc + fd, fe, k);
    lemma_lookup_concat(fa + fb + fc, fd, k);
    lemma_lookup_concat(fa + fb, fc, k);
    lemma_lookup_concat(fa, fb, k);
    lemma_lookup_opt("alias"@, s.intent.alias, k);
    lemma_lookup_opt("role"@, s.intent.role, k);
    lemma_lookup_opt("objective"@, s.intent.objective, k);
    lemma_lookup_opt("action"@, s.intent.action, k);
    lemma_lookup_opt("subject"@, s.intent.subject, k);
    lemma_lookup_tracker_field(s.intent.trackers, k);
    lemma_lookup_one("start"@, ValueView::Str(clock_text(s.start, z)), k);
    lemma_lookup_end(s, z, k);
    lemma_lookup_note(s, k);
}

proof fn lemma_keys_differ()
    ensures
        "alias"@ != "role"@,
        "alias"@ != "objective"@,
        "alias"@ != "action"@,
        "alias"@ != "subject"@,
        "alias"@ != "trackers"@,
        "alias"@ != "start"@,
        "alias"@ != "end"@,
        "alias"@ != "note"@,
        "role"@ != "objective"@,
        "role"@ != "action"@,
        "role"@ != "subject"@,
        "role"@ != "trackers"@,
        "role"@ != "start"@,
        "role"@ != "end"@,
        "role"@ != "note"@,
        "objective"@ != "action"@,
        "objective"@ != "subject"@,
        "objective"@ != "trackers"@,
        "objective"@ != "start"@,
        "objective"@ != "end"@,
        "objective"@ != "note"@,
        "action"@ != "subject"@,
        "action"@ != "trackers"@,
        "action"@ != "start"@,
        "action"@ != "end"@,
        "action"@ != "note"@,
        "subject"@ != "trackers"@,
        "subject"@ != "start"@,
        "subject"@ != "end"@,
        "subject"@ != "note"@,
        "trackers"@ != "start"@,
        "trackers"@ != "end"@,
        "trackers"@ != "note"@,
        "start"@ != "end"@,
        "start"@ != "note"@,
        "end"@ != "note"@,
{
    reveal_strlit("alias");
    reveal_strlit("role");
    reveal_strlit("objective");
    reveal_strlit("action");
    reveal_strlit("subject");
    reveal_strlit("trackers");
    reveal_strlit("start");
    reveal_strlit("end");
    reveal_strlit("note");
    assert("alias"@.len() != "role"@.len());
    assert("alias"@.len() != "objective"@.len());
    assert("alias"@.len() != "action"@.len());
    assert("alias"@.len() != "subject"@.len());
    assert("alias"@.len() != "trackers"@.len());
    assert("alias"@[0] != "start"@[0]);
    assert("alias"@.len() != "end"@.len());
    assert("alias"@.len() != "note"@.len());
    assert("role"@.len() != "objective"@.len());
    assert("role"@.len() != "action"@.len());
    assert("role"@.len() != "subject"@.len());
    assert("role"@.len() != "trackers"@.len());
    assert("role"@.len() != "start"@.len());
    assert("role"@.len() != "end"@.len());
    assert("role"@[0] != "note"@[0]);
    assert("objective"@.len() != "action"@.len());
    assert("objective"@.len() != "subject"@.len());
    assert("objective"@.len() != "trackers"@.len());
    assert("objective"@.len() != "start"@.len());
    assert("objective"@.len() != "end"@.len());
    assert("objective"@.len() != "note"@.len());
    assert("action"@.len() != "subject"@.len());
    assert("action"@.len() != "trackers"@.len());
    assert("action"@.len() != "start"@.len());
    assert("action"@.len() != "end"@.len());
    assert("action"@.len() != "note"@.len());
    assert("subject"@.len() != "trackers"@.len());
    assert("subject"@.len() != "start"@.len());
    assert("subject"@.len() != "end"@.len());
    assert("subject"@.len() != "note"@.len());
    assert("trackers"@.len() != "start"@.len());
    assert("trackers"@.len() != "end"@.len());
    assert("trackers"@.len() != "note"@.len());
    assert("start"@.len() != "end"@.len());
    assert("start"@.len() != "note"@.len());
    assert("end"@.len() != "note"@.len());
}

/// The fields of a session's block, looked up by key, give back its values.
proof fn lemma_session_fields_lookup(s: SessionView, z: bool)
    requires
        s.note matches Some(n) ==> n.len() > 0,
    ensures
        str_field(session_fields(s, z), "alias"@) == s.intent.alias,
        str_field(session_fields(s, z), "role"@) == s.intent.role,
        str_field(session_fields(s, z), "objective"@) == s.intent.objective,
        str_field(session_fields(s, z), "action"@) == s.intent.action,
        str_field(session_fields(s, z), "subject"@) == s.intent.subject,
        str_field(session_fields(s, z), "start"@) == Some(clock_text(s.start, z)),
        str_field(session_fields(s, z), "end"@) == (match s.end {
            Some(e) => Some(clock_text(e, z)),
            None => None::<Seq<char>>,
        }),
        str_field(session_fields(s, z), "note"@) == s.note,
        trackers_field(session_fields(s, z)).to_set() == s.intent.trackers.to_set(),
{
    lemma_keys_differ();
    lemma_session_lookup(s, z, "alias"@);
    lemma_session_lookup(s, z, "role"@);
    lemma_session_lookup(s, z, "objective"@);
    lemma_session_lookup(s, z, "action"@);
    lemma_session_lookup(s, z, "subject"@);
    lemma_session_lookup(s, z, "trackers"@);
    lemma_session_lookup(s, z, "start"@);
    lemma_session_lookup(s, z, "end"@);
    lemma_session_lookup(s, z, "note"@);
    lemma_lookup_tracker_field(s.intent.trackers, "trackers"@);
    let ts = s.intent.trackers;
    if ts.len() == 1 {
        assert(seq![ts[0]] =~= ts);
    }
}

/// An instant that a log's text holds exactly on `date`: a whole minute, an
/// offset of whole minutes, on that date; and, when its times are written
/// bare (`z` false), the one instant the zone gives that local time.
pub open spec fn time_safe(t: ZonedTime, date: Date, tz: Seq<char>, z: bool) -> bool {
    &&& t.wf()
    &&& t.second_of_day() % 60 == 0
    &&& t.offset % 60 == 0
    &&& t.local() == date.epoch_day() * 86400 + t.second_of_day()
    &&& !z ==> crate::time::local_resolutions(
        tz,
        date.year as int,
        date.month as int,
        date.day as int,
        t.second_of_day(),
    ) == Some(seq![(t.utc, t.offset)])
}

pub open spec fn session_time_safe(s: SessionView, date: Date, tz: Seq<char>, z: bool) -> bool {
    time_safe(s.start, date, tz, z) && (s.end matches Some(e) ==> time_safe(e, date, tz, z))
}

/// A session's block reads back as a session that is the same as it.
pub proof fn lemma_session_round_trip(
    s: SessionView,
    ls: Seq<(Seq<char>, Seq<char>)>,
    z: bool,
    date: Date,
    tz: Seq<char>,
)
    requires
        session_safe(s, ls),
        date.wf(),
        session_time_safe(s, date, tz, z),
    ensures
        session_fields_error(session_fields(s, z), date, tz) is None,
        forall|sv: SessionView|
            session_from_fields(sv, session_fields(s, z), date, tz) ==> same_session(sv, s),
{
    let fs = session_fields(s, z);
    lemma_session_fields_lookup(s, z);
    lemma_time_round_trip(date, tz, s.start, z);
    if let Some(e) = s.end {
        lemma_time_round_trip(date, tz, e, z);
    }
    assert forall|sv: SessionView| session_from_fields(sv, fs, date, tz) implies same_session(sv, s) by {
        assert(sv.intent.alias == s.intent.alias);
        assert(sv.intent.trackers.to_set() == s.intent.trackers.to_set());
        if let Some(e) = s.end {
            assert(sv.end == Some(e));
        }
    }
}

/// A log whose text holds exactly what it says: its date and zone, and each
/// session on its date, in text that quotes cleanly.
pub open spec fn log_safe(l: LogView, ls: Seq<(Seq<char>, Seq<char>)>) -> bool {
    let z = has_dst_event(l.date, l.timezone);
    &&& l.date.wf()
    &&& quotable(l.timezone)
    &&& crate::time::local_resolutions(
        l.timezone,
        l.date.year as int,
        l.date.month as int,
        l.date.day as int,
        0,
    ) is Some
    &&& forall|i: int|
        0 <= i < l.timeline.len() ==> session_safe(#[trigger] l.timeline[i], ls)
            && session_time_safe(l.timeline[i], l.date, l.timezone, z)
}

proof fn lemma_no_session_error(blocks: Seq<Seq<(Seq<char>, ValueView)>>, date: Date, tz: Seq<char>, i: int)
    requires
        0 <= i <= blocks.len(),
        forall|j: int| i <= j < blocks.len() ==> session_fields_error(#[trigger] blocks[j], date, tz) is None,
    ensures
        first_session_error(blocks, date, tz, i) is None,
    decreases blocks.len() - i,
{
    if i < blocks.len() {
        lemma_no_session_error(blocks, date, tz, i + 1);
    }
}

/// The fields of a log's header.
pub open spec fn header_fields(l: LogView) -> Seq<(Seq<char>, ValueView)> {
    seq![
        ("version"@, ValueView::Str("1.1"@)),
        ("date"@, ValueView::Str(date_text(l.date))),
        ("timezone"@, ValueView::Str(l.timezone)),
    ]
}

proof fn lemma_header_lookups(l: LogView)
    ensures
        str_field(header_fields(l), "date"@) == Some(date_text(l.date)),
        str_field(header_fields(l), "timezone"@) == Some(l.timezone),
{
    reveal_strlit("version");
    reveal_strlit("date");
    reveal_strlit("timezone");
    assert("version"@.len() != "date"@.len());
    assert("version"@.len() != "timezone"@.len());
    assert("date"@.len() != "timezone"@.len());
    let h = header_fields(l);
    let h1 = h.drop_first();
    let h2 = h1.drop_first();
    assert(h1 =~= seq![
        ("date"@, ValueView::Str(date_text(l.date))),
        ("timezone"@, ValueView::Str(l.timezone)),
    ]);
    assert(h2 =~= seq![("timezone"@, ValueView::Str(l.timezone))]);
    assert(h[0].0 != "date"@);
    assert(h1[0].0 == "date"@);
    assert(lookup(h, "date"@) == lookup(h1, "date"@));
    assert(lookup(h1, "date"@) == Some(ValueView::Str(date_text(l.date))));
    lemma_lookup_one("timezone"@, ValueView::Str(l.timezone), "timezone"@);
    assert(h[0].0 != "timezone"@);
    assert(h1[0].0 != "timezone"@);
    assert(lookup(h, "timezone"@) == lookup(h1, "timezone"@));
    assert(lookup(h1, "timezone"@) == lookup(h2, "timezone"@));
}

/// What reading a log's laid-out lines gives: its header fields, and one
/// block of fields per session in order of start.
#[verifier::rlimit(60)]
proof fn lemma_log_lines_state(l: LogView, ls: Seq<(Seq<char>, Seq<char>)>)
    requires
        log_safe(l, ls),
    ensures
        read_lines(crate::layout::align_all(raw_lines(l, ls).map_values(|x: Seq<char>| commentify(x))))
            == (ReadState {
            header: header_fields(l),
            blocks: sort_by_start(l.timeline).map_values(
                |s: SessionView| session_fields(s, has_dst_event(l.date, l.timezone)),
            ),
            list: None,
        }),
{
    let z = has_dst_event(l.date, l.timezone);
    let raw = raw_lines(l, ls);
    let cm = raw.map_values(|x: Seq<char>| commentify(x));
    let width = crate::layout::max_key(cm);
    assert(crate::layout::align_all(cm) =~= lay(raw, width));
    assert(covers(raw, width)) by {
        assert forall|i: int|
            0 <= i < raw.len() && is_keyed(commentify(#[trigger] raw[i])) implies utf8_len(
            key_of(commentify(raw[i])),
        ) <= width by {
            assert(cm[i] == commentify(raw[i]));
            crate::layout::lemma_max_key_bound(cm, i);
        }
    }
    let hl = header_lines(l, z);
    let st0 = ReadState { header: Seq::empty(), blocks: Seq::empty(), list: None };
    let body = if l.timeline.len() == 0 {
        seq![""@, "# Timeline is empty."@]
    } else {
        blocks(sort_by_start(l.timeline), ls, z)
    };
    assert(raw == hl + body);
    lemma_covers_split(hl, body, width);
    lemma_lay_concat(hl, body, width);
    lemma_read_lines_from(lay(raw, width));
    lemma_read_from_concat(st0, lay(hl, width), lay(body, width));
    lemma_header_read(l, z, width);
    let sth = ReadState { header: header_fields(l), blocks: Seq::empty(), list: None };
    let ss = sort_by_start(l.timeline);
    crate::codec::lemma_sort_keeps(l.timeline);
    if l.timeline.len() == 0 {
        let e1 = seq![""@];
        let e2 = seq!["# Timeline is empty."@];
        assert(body == e1 + e2);
        lemma_lay_concat(e1, e2, width);
        lemma_read_from_concat(sth, lay(e1, width), lay(e2, width));
        lemma_read_one(sth, ""@, width);
        assert(""@ == Seq::<char>::empty()) by {
            reveal_strlit("");
        }
        lemma_empty_line_read(sth, width);
        lemma_read_one(sth, "# Timeline is empty."@, width);
        reveal_strlit("# Timeline is empty.");
        lemma_comment_line_read(sth, "# Timeline is empty."@, width);
        assert(ss.len() == 0);
        assert(ss.map_values(|s: SessionView| session_fields(s, z)) =~= Seq::<Seq<(Seq<char>, ValueView)>>::empty());
    } else {
        assert forall|i: int| 0 <= i < ss.len() implies session_safe(#[trigger] ss[i], ls) by {
            let j = choose|j: int| 0 <= j < l.timeline.len() && l.timeline[j] == ss[i];
            assert(session_safe(l.timeline[j], ls));
        }
        lemma_blocks_read(sth, ss, ls, z, width);
        assert(Seq::<Seq<(Seq<char>, ValueView)>>::empty() + ss.map_values(|s: SessionView| session_fields(s, z))
            =~= ss.map_values(|s: SessionView| session_fields(s, z)));
    }
}

/// The lines of a log's text, as laid out, read back as the log: its date and
/// zone, and, block by block, sessions that are the same as its own in order
/// of start.
pub proof fn lemma_log_lines_round_trip(l: LogView, ls: Seq<(Seq<char>, Seq<char>)>)
    requires
        log_safe(l, ls),
    ensures
        ({
            let cm = raw_lines(l, ls).map_values(|x: Seq<char>| commentify(x));
            let st = read_lines(crate::layout::align_all(cm));
            &&& log_fields_error(st) is None
            &&& str_field(st.header, "date"@) == Some(date_text(l.date))
            &&& str_field(st.header, "timezone"@) == Some(l.timezone)
            &&& st.blocks.len() == l.timeline.len()
            &&& forall|i: int, sv: SessionView|
                0 <= i < st.blocks.len() && #[trigger] session_from_fields(sv, st.blocks[i], l.date, l.timezone)
                    ==> same_session(sv, sort_by_start(l.timeline)[i])
        }),
{
    let z = has_dst_event(l.date, l.timezone);
    lemma_log_lines_state(l, ls);
    let cm = raw_lines(l, ls).map_values(|x: Seq<char>| commentify(x));
    let st = read_lines(crate::layout::align_all(cm));
    let ss = sort_by_start(l.timeline);
    crate::codec::lemma_sort_keeps(l.timeline);
    lemma_header_lookups(l);
    lemma_date_text_round_trip(l.date);
    assert forall|i: int| 0 <= i < st.blocks.len() implies session_fields_error(
        #[trigger] st.blocks[i],
        l.date,
        l.timezone,
    ) is None && forall|sv: SessionView|
        session_from_fields(sv, st.blocks[i], l.date, l.timezone) ==> same_session(sv, ss[i]) by {
        assert(st.blocks[i] == session_fields(ss[i], z));
        let j = choose|j: int| 0 <= j < l.timeline.len() && l.timeline[j] == ss[i];
        assert(session_safe(l.timeline[j], ls));
        lemma_session_round_trip(ss[i], ls, z, l.date, l.timezone);
    }
    lemma_no_session_error(st.blocks, l.date, l.timezone, 0);
}

/// No newline in the text.
pub open spec fn no_nl(s: Seq<char>) -> bool {
    forall|i: int| 0 <= i < s.len() ==> #[trigger] s[i] != '\n'
}

pub open spec fn no_nl_opt(o: Option<Seq<char>>) -> bool {
    o matches Some(s) ==> no_nl(s)
}

proof fn lemma_no_nl_sub(l: Seq<char>, a: int, b: int)
    requires
        no_nl(l),
        0 <= a <= b <= l.len(),
    ensures
        no_nl(l.subrange(a, b)),
{
    assert forall|i: int| 0 <= i < b - a implies #[trigger] l.subrange(a, b)[i] != '\n' by {
        assert(l.subrange(a, b)[i] == l[a + i]);
    }
}

proof fn lemma_ws_run_le(l: Seq<char>, i: int)
    requires
        0 <= i <= l.len(),
    ensures
        0 <= ws_run(l, i) <= l.len() - i,
    decreases l.len() - i,
{
    if i < l.len() && is_ws(l[i]) {
        lemma_ws_run_le(l, i + 1);
    }
}

proof fn lemma_trailing_bound(l: Seq<char>)
    ensures
        0 <= trailing_ws(l) <= l.len(),
    decreases l.len(),
{
    if l.len() > 0 && is_ws(l.last()) {
        lemma_trailing_bound(l.drop_last());
    }
}

proof fn lemma_find_eq_le(l: Seq<char>, i: int)
    requires
        0 <= i <= l.len(),
    ensures
        i <= find_eq(l, i) <= l.len(),
    decreases l.len() - i,
{
    if i < l.len() && l[i] != '=' {
        lemma_find_eq_le(l, i + 1);
    }
}

proof fn lemma_trim_no_nl(l: Seq<char>)
    requires
        no_nl(l),
    ensures
        no_nl(trim(l)),
{
    lemma_ws_run_le(l, 0);
    let a = ws_run(l, 0);
    lemma_no_nl_sub(l, a, l.len() as int);
    let rest = l.subrange(a, l.len() as int);
    lemma_trailing_bound(rest);
    lemma_no_nl_sub(rest, 0, rest.len() - trailing_ws(rest));
}

/// Laying out a line adds no newline.
proof fn lemma_lay_no_nl(l: Seq<char>, width: int)
    requires
        no_nl(l),
    ensures
        no_nl(aligned(commentify(l), width)),
{
    reveal_strlit("# ");
    reveal_strlit(" = ");
    let c = commentify(l);
    if crate::layout::is_derived(l) {
        lemma_no_nl_sub(l, 2, l.len() as int);
    }
    assert(no_nl(c));
    if is_keyed(c) {
        lemma_find_eq_le(c, 0);
        let e = find_eq(c, 0);
        lemma_no_nl_sub(c, 0, e);
        lemma_no_nl_sub(c, e + 1, c.len() as int);
        lemma_trim_no_nl(c.subrange(0, e));
        lemma_trim_no_nl(c.subrange(e + 1, c.len() as int));
        let k = key_of(c);
        let v = value_of(c);
        let pad = Seq::new((width - utf8_len(k)) as nat, |i: int| ' ');
        assert(aligned(c, width) == k + pad + " = "@ + v);
        assert(no_nl(k + pad + " = "@ + v));
    }
}

proof fn lemma_split_no_nl(x: Seq<char>)
    requires
        no_nl(x),
    ensures
        crate::parse::split_lines(x) == seq![x],
    decreases x.len(),
{
    if x.len() > 0 {
        lemma_no_nl_sub(x, 0, x.len() - 1);
        assert(x.drop_last() =~= x.subrange(0, x.len() - 1));
        lemma_split_no_nl(x.drop_last());
        assert(x.drop_last().push(x.last()) =~= x);
        assert(x[x.len() - 1] != '\n');
    } else {
        assert(x =~= Seq::<char>::empty());
    }
}

proof fn lemma_split_append(c: Seq<char>, b: Seq<char>)
    requires
        no_nl(b),
    ensures
        crate::parse::split_lines(c + b) == crate::parse::split_lines(c).update(
            crate::parse::split_lines(c).len() - 1,
            crate::parse::split_lines(c).last() + b,
        ),
    decreases b.len(),
{
    crate::parse::lemma_split_nonempty(c);
    let sc = crate::parse::split_lines(c);
    if b.len() == 0 {
        assert(c + b =~= c);
        assert(sc.last() + b =~= sc.last());
        assert(sc.update(sc.len() - 1, sc.last()) =~= sc);
    } else {
        lemma_no_nl_sub(b, 0, b.len() - 1);
        assert(b.drop_last() =~= b.subrange(0, b.len() - 1));
        lemma_split_append(c, b.drop_last());
        assert((c + b).drop_last() =~= c + b.drop_last());
        assert(b[b.len() - 1] != '\n');
        assert((c + b).last() == b.last());
        crate::parse::lemma_split_nonempty(c + b.drop_last());
        let r = crate::parse::split_lines(c + b.drop_last());
        assert(r.len() == sc.len());
        assert(r.last() == sc.last() + b.drop_last());
        assert(r.last().push(b.last()) =~= sc.last() + b);
        assert(r.update(r.len() - 1, r.last().push(b.last())) =~= sc.update(
            sc.len() - 1,
            sc.last() + b,
        ));
    }
}

/// Lines without newlines, joined, split back into themselves.
pub proof fn lemma_split_join(ls: Seq<Seq<char>>)
    requires
        ls.len() >= 1,
        forall|i: int| 0 <= i < ls.len() ==> no_nl(#[trigger] ls[i]),
    ensures
        crate::parse::split_lines(crate::layout::join_lines(ls)) == ls,
    decreases ls.len(),
{
    reveal_strlit("\n");
    if ls.len() == 1 {
        lemma_split_no_nl(ls[0]);
        assert(seq![ls[0]] =~= ls);
    } else {
        let init = ls.drop_last();
        assert forall|i: int| 0 <= i < init.len() implies no_nl(#[trigger] init[i]) by {
            assert(init[i] == ls[i]);
        }
        lemma_split_join(init);
        let j = crate::layout::join_lines(init);
        let jn = j + "\n"@;
        assert(jn.drop_last() =~= j);
        assert(jn.last() == '\n');
        assert(crate::parse::split_lines(jn) == init.push(Seq::empty()));
        assert(ls[ls.len() - 1] == ls.last());
        lemma_split_append(jn, ls.last());
        assert(crate::layout::join_lines(ls) == jn + ls.last());
        assert(init.push(Seq::empty()).update(init.len() as int, Seq::<char>::empty() + ls.last()) =~= ls);
    }
}

pub open spec fn lines_no_nl(ls: Seq<Seq<char>>) -> bool {
    forall|i: int| 0 <= i < ls.len() ==> no_nl(#[trigger] ls[i])
}

proof fn lemma_lines_concat(a: Seq<Seq<char>>, b: Seq<Seq<char>>)
    requires
        lines_no_nl(a),
        lines_no_nl(b),
    ensures
        lines_no_nl(a + b),
{
    assert forall|i: int| 0 <= i < (a + b).len() implies no_nl(#[trigger] (a + b)[i]) by {
        if i < a.len() {
            assert((a + b)[i] == a[i]);
        } else {
            assert((a + b)[i] == b[i - a.len()]);
        }
    }
}

proof fn lemma_kv_no_nl(k: Seq<char>, v: Seq<char>)
    requires
        no_nl(k),
        no_nl(v),
    ensures
        no_nl(kv(k, v)),
{
    reveal_strlit(" = ");
    reveal_strlit("\"");
}

proof fn lemma_decimal_no_nl(n: nat)
    ensures
        no_nl(crate::text::decimal(n)),
    decreases n,
{
    if n >= 10 {
        lemma_decimal_no_nl(n / 10);
    }
}

proof fn lemma_cat_no_nl(a: Seq<char>, b: Seq<char>)
    requires
        no_nl(a),
        no_nl(b),
    ensures
        no_nl(a + b),
{
    assert forall|i: int| 0 <= i < (a + b).len() implies #[trigger] (a + b)[i] != '\n' by {
        if i < a.len() {
            assert((a + b)[i] == a[i]);
        } else {
            assert((a + b)[i] == b[i - a.len()]);
        }
    }
}

proof fn lemma_amount_no_nl(n: int, one: Seq<char>, many: Seq<char>)
    requires
        n >= 0,
        no_nl(one),
        no_nl(many),
    ensures
        no_nl(crate::codec::amount(n, one, many)),
{
    reveal_strlit(" ");
    lemma_decimal_no_nl(n as nat);
    lemma_cat_no_nl(crate::text::decimal(n as nat), " "@);
    lemma_cat_no_nl(crate::text::decimal(n as nat) + " "@, if n == 1 { one } else { many });
}

proof fn lemma_duration_no_nl(t: int)
    ensures
        no_nl(duration_text(t)),
{
    reveal_strlit(", ");
    reveal_strlit(" and ");
    if t < 0 {
        reveal_strlit("0 seconds");
        reveal_strlit("-");
        reveal_strlit(" seconds");
        let sec = ((-t) % 60) as nat;
        lemma_decimal_no_nl(sec);
        lemma_cat_no_nl("-"@, crate::text::decimal(sec));
        lemma_cat_no_nl("-"@ + crate::text::decimal(sec), " seconds"@);
    } else {
        reveal_strlit("hour");
        reveal_strlit("hours");
        reveal_strlit("minute");
        reveal_strlit("minutes");
        reveal_strlit("second");
        reveal_strlit("seconds");
        let h = t / 3600;
        let m = (t % 3600) / 60;
        let sc = t % 60;
        let hs = crate::codec::amount(h, "hour"@, "hours"@);
        let ms = crate::codec::amount(m, "minute"@, "minutes"@);
        let ss = crate::codec::amount(sc, "second"@, "seconds"@);
        lemma_amount_no_nl(h, "hour"@, "hours"@);
        lemma_amount_no_nl(m, "minute"@, "minutes"@);
        lemma_amount_no_nl(sc, "second"@, "seconds"@);
        lemma_cat_no_nl(hs, ", "@);
        lemma_cat_no_nl(hs + ", "@, ms);
        lemma_cat_no_nl(hs + ", "@ + ms, " and "@);
        lemma_cat_no_nl(hs + ", "@ + ms + " and "@, ss);
        lemma_cat_no_nl(hs, " and "@);
        lemma_cat_no_nl(hs + " and "@, ms);
        lemma_cat_no_nl(hs + " and "@, ss);
        lemma_cat_no_nl(ms, " and "@);
        lemma_cat_no_nl(ms + " and "@, ss);
    }
}

proof fn lemma_tracker_lines_no_nl(ts: Seq<Seq<char>>, ls: Seq<(Seq<char>, Seq<char>)>)
    requires
        trackers_safe(ts, ls),
    ensures
        lines_no_nl(tracker_lines(ts, ls)),
{
    reveal_strlit("trackers");
    reveal_strlit("trackers = [");
    reveal_strlit("]");
    reveal_strlit("   ");
    reveal_strlit(",");
    reveal_strlit(" # ");
    reveal_strlit("\"");
    if ts.len() == 1 {
        lemma_kv_no_nl("trackers"@, ts[0]);
    } else if ts.len() > 1 {
        let f = |t: Seq<char>| tracker_item(t, ls);
        assert forall|i: int| 0 <= i < ts.len() implies no_nl(#[trigger] ts.map_values(f)[i]) by {
            assert(ts.map_values(f)[i] == tracker_item(ts[i], ls));
        }
        lemma_lines_concat(seq!["trackers = ["@], ts.map_values(f));
        lemma_lines_concat(seq!["trackers = ["@] + ts.map_values(f), seq!["]"@]);
    }
}

proof fn lemma_session_lines_no_nl(s: SessionView, ls: Seq<(Seq<char>, Seq<char>)>, z: bool)
    requires
        session_safe(s, ls),
    ensures
        lines_no_nl(session_lines(s, ls, z)),
{
    reveal_strlit("");
    reveal_strlit("[[timeline]]");
    lemma_keys();
    reveal_strlit("alias");
    reveal_strlit("role");
    reveal_strlit("objective");
    reveal_strlit("action");
    reveal_strlit("subject");
    reveal_strlit("start");
    reveal_strlit("end");
    reveal_strlit("note");
    reveal_strlit("--duration");
    let h = seq![""@, "[[timeline]]"@];
    assert(lines_no_nl(h));
    let a = opt_line("alias"@, s.intent.alias);
    let b = opt_line("role"@, s.intent.role);
    let c = opt_line("objective"@, s.intent.objective);
    let d = opt_line("action"@, s.intent.action);
    let e = opt_line("subject"@, s.intent.subject);
    if let Some(v) = s.intent.alias { lemma_kv_no_nl("alias"@, v); }
    if let Some(v) = s.intent.role { lemma_kv_no_nl("role"@, v); }
    if let Some(v) = s.intent.objective { lemma_kv_no_nl("objective"@, v); }
    if let Some(v) = s.intent.action { lemma_kv_no_nl("action"@, v); }
    if let Some(v) = s.intent.subject { lemma_kv_no_nl("subject"@, v); }
    lemma_tracker_lines_no_nl(s.intent.trackers, ls);
    let f = tracker_lines(s.intent.trackers, ls);
    lemma_lines_concat(a, b);
    lemma_lines_concat(a + b, c);
    lemma_lines_concat(a + b + c, d);
    lemma_lines_concat(a + b + c + d, e);
    lemma_lines_concat(a + b + c + d + e, f);
    assert(intent_lines(s, ls) == a + b + c + d + e + f);
    lemma_clock_quotable(s.start, z);
    lemma_kv_no_nl("start"@, clock_text(s.start, z));
    if let Some(en) = s.end {
        lemma_clock_quotable(en, z);
        lemma_kv_no_nl("end"@, clock_text(en, z));
        lemma_duration_no_nl(en.utc - s.start.utc);
        lemma_kv_no_nl("--duration"@, duration_text(en.utc - s.start.utc));
    }
    assert(lines_no_nl(time_lines(s, z)));
    if let Some(n) = s.note { lemma_kv_no_nl("note"@, n); }
    assert(lines_no_nl(note_lines(s)));
    lemma_lines_concat(h, intent_lines(s, ls));
    lemma_lines_concat(h + intent_lines(s, ls), time_lines(s, z));
    lemma_lines_concat(h + intent_lines(s, ls) + time_lines(s, z), note_lines(s));
}

proof fn lemma_blocks_no_nl(ss: Seq<SessionView>, ls: Seq<(Seq<char>, Seq<char>)>, z: bool)
    requires
        forall|i: int| 0 <= i < ss.len() ==> session_safe(#[trigger] ss[i], ls),
    ensures
        lines_no_nl(blocks(ss, ls, z)),
    decreases ss.len(),
{
    if ss.len() > 0 {
        let init = ss.drop_last();
        assert forall|i: int| 0 <= i < init.len() implies session_safe(#[trigger] init[i], ls) by {
            assert(init[i] == ss[i]);
        }
        lemma_blocks_no_nl(init, ls, z);
        assert(ss[ss.len() - 1] == ss.last());
        lemma_session_lines_no_nl(ss.last(), ls, z);
        lemma_lines_concat(blocks(init, ls, z), session_lines(ss.last(), ls, z));
    }
}

proof fn lemma_raw_no_nl(l: LogView, ls: Seq<(Seq<char>, Seq<char>)>)
    requires
        log_safe(l, ls),
    ensures
        lines_no_nl(raw_lines(l, ls)),
        raw_lines(l, ls).len() >= 1,
{
    let z = has_dst_event(l.date, l.timezone);
    lemma_keys();
    reveal_strlit("# This is a Faff-format log file - see faffage.com for details.");
    reveal_strlit("# It has been generated but can be edited manually.");
    reveal_strlit("# Changes to rows starting with '#' will not be saved.");
    reveal_strlit("1.1");
    reveal_strlit("HH:mmZ");
    reveal_strlit("HH:mm");
    reveal_strlit("version");
    reveal_strlit("date");
    reveal_strlit("timezone");
    reveal_strlit("--date_format");
    reveal_strlit("");
    reveal_strlit("# Timeline is empty.");
    lemma_kv_no_nl("version"@, "1.1"@);
    assert(no_nl(date_text(l.date))) by {
        lemma_two_digits(l.date.year / 100);
        lemma_two_digits((l.date.year % 100) as int);
        lemma_two_digits(l.date.month as int);
        lemma_two_digits(l.date.day as int);
        reveal_strlit("-");
    }
    lemma_kv_no_nl("date"@, date_text(l.date));
    lemma_kv_no_nl("timezone"@, l.timezone);
    lemma_kv_no_nl("--date_format"@, "HH:mmZ"@);
    lemma_kv_no_nl("--date_format"@, "HH:mm"@);
    assert(lines_no_nl(header_lines(l, z)));
    if l.timeline.len() == 0 {
        lemma_lines_concat(header_lines(l, z), seq![""@, "# Timeline is empty."@]);
    } else {
        let ss = sort_by_start(l.timeline);
        crate::codec::lemma_sort_keeps(l.timeline);
        assert forall|i: int| 0 <= i < ss.len() implies session_safe(#[trigger] ss[i], ls) by {
            let j = choose|j: int| 0 <= j < l.timeline.len() && l.timeline[j] == ss[i];
            assert(session_safe(l.timeline[j], ls));
        }
        lemma_blocks_no_nl(ss, ls, z);
        lemma_lines_concat(header_lines(l, z), blocks(ss, ls, z));
    }
}

/// A log's text, read back, gives the log: its date and zone, and sessions
/// that are the same as its own, in order of start (`to_log_file` writes
/// them so). `log_safe` says which logs a text can hold exactly: their texts
/// quote cleanly, and their times stand on the log's date, on whole minutes,
/// each the one instant its zone gives that local time when written bare.
pub proof fn lemma_log_text_round_trip(l: LogView, ls: Seq<(Seq<char>, Seq<char>)>)
    requires
        log_safe(l, ls),
    ensures
        ({
            let st = read_lines(crate::parse::split_lines(crate::codec::log_text(l, ls)));
            &&& log_fields_error(st) is None
            &&& str_field(st.header, "date"@) == Some(date_text(l.date))
            &&& crate::parse::iso_date(date_text(l.date)) == Some(l.date)
            &&& str_field(st.header, "timezone"@) == Some(l.timezone)
            &&& st.blocks.len() == l.timeline.len()
            &&& forall|i: int, sv: SessionView|
                0 <= i < st.blocks.len() && #[trigger] session_from_fields(sv, st.blocks[i], l.date, l.timezone)
                    ==> same_session(sv, sort_by_start(l.timeline)[i])
        }),
{
    let raw = raw_lines(l, ls);
    let cm = raw.map_values(|x: Seq<char>| commentify(x));
    let width = crate::layout::max_key(cm);
    let laid = crate::layout::align_all(cm);
    lemma_raw_no_nl(l, ls);
    assert(laid =~= lay(raw, width));
    assert forall|i: int| 0 <= i < laid.len() implies no_nl(#[trigger] laid[i]) by {
        assert(laid[i] == aligned(commentify(raw[i]), width));
        lemma_lay_no_nl(raw[i], width);
    }
    lemma_split_join(laid);
    assert(crate::codec::log_text(l, ls) == crate::layout::join_lines(laid));
    lemma_log_lines_round_trip(l, ls);
    lemma_date_text_round_trip(l.date);
}

} // verus!
