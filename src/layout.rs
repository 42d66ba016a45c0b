use vstd::prelude::*;

verus! {

/// The characters that `char::is_whitespace` accepts (Unicode White_Space).
pub open spec fn is_ws(c: char) -> bool {
    c == ' ' || ('\t' <= c <= '\r') || c == '\u{85}' || c == '\u{a0}' || c == '\u{1680}' || (
    '\u{2000}' <= c <= '\u{200a}') || c == '\u{2028}' || c == '\u{2029}' || c == '\u{202f}' || c
        == '\u{205f}' || c == '\u{3000}'
}

pub fn is_ws_exec(c: char) -> (r: bool)
    ensures
        r == is_ws(c),
{
    c == ' ' || ('\t' <= c && c <= '\r') || c == '\u{85}' || c == '\u{a0}' || c == '\u{1680}' || (
    '\u{2000}' <= c && c <= '\u{200a}') || c == '\u{2028}' || c == '\u{2029}' || c == '\u{202f}'
        || c == '\u{205f}' || c == '\u{3000}'
}

pub open spec fn is_name_start(c: char) -> bool {
    ('a' <= c <= 'z') || ('A' <= c <= 'Z') || c == '_' || c == '-'
}

pub open spec fn is_name_char(c: char) -> bool {
    is_name_start(c) || ('0' <= c <= '9')
}

/// How many characters from `i` on are name characters.
pub open spec fn name_run(l: Seq<char>, i: int) -> int
    decreases l.len() - i,
{
    if i < 0 || i >= l.len() || !is_name_char(l[i]) {
        0
    } else {
        1 + name_run(l, i + 1)
    }
}

/// How many characters from `i` on are whitespace.
pub open spec fn ws_run(l: Seq<char>, i: int) -> int
    decreases l.len() - i,
{
    if i < 0 || i >= l.len() || !is_ws(l[i]) {
        0
    } else {
        1 + ws_run(l, i + 1)
    }
}

/// A derived value: `--name = value`, which the text shows as a comment.
pub open spec fn is_derived(l: Seq<char>) -> bool {
    l.len() >= 3 && l[0] == '-' && l[1] == '-' && is_name_start(l[2]) && {
        let a = 2 + name_run(l, 2);
        let b = a + ws_run(l, a);
        b + 1 < l.len() && l[b] == '='
    }
}

/// A derived value line turned into a comment: its `--` becomes `# `.
pub open spec fn commentify(l: Seq<char>) -> Seq<char> {
    if is_derived(l) {
        "# "@ + l.subrange(2, l.len() as int)
    } else {
        l
    }
}

/// The position of the first `=` from `i` on, or the length.
pub open spec fn find_eq(l: Seq<char>, i: int) -> int
    decreases l.len() - i,
{
    if i < 0 || i >= l.len() {
        l.len() as int
    } else if l[i] == '=' {
        i
    } else {
        find_eq(l, i + 1)
    }
}

/// Whitespace characters at the end of `l`.
pub open spec fn trailing_ws(l: Seq<char>) -> int
    decreases l.len(),
{
    if l.len() == 0 || !is_ws(l.last()) {
        0
    } else {
        1 + trailing_ws(l.drop_last())
    }
}

pub open spec fn trim(l: Seq<char>) -> Seq<char> {
    let a = ws_run(l, 0);
    let rest = l.subrange(a, l.len() as int);
    rest.subrange(0, rest.len() - trailing_ws(rest))
}

/// A `key = value` line, not a comment.
pub open spec fn is_keyed(l: Seq<char>) -> bool {
    find_eq(l, 0) < l.len() && !(ws_run(l, 0) < l.len() && l[ws_run(l, 0)] == '#')
}

pub open spec fn key_of(l: Seq<char>) -> Seq<char> {
    trim(l.subrange(0, find_eq(l, 0)))
}

pub open spec fn value_of(l: Seq<char>) -> Seq<char> {
    trim(l.subrange(find_eq(l, 0) + 1, l.len() as int))
}

/// Bytes that `c` takes in UTF-8.
pub open spec fn utf8_width(c: char) -> int {
    if (c as u32) < 0x80 {
        1
    } else if (c as u32) < 0x800 {
        2
    } else if (c as u32) < 0x10000 {
        3
    } else {
        4
    }
}

/// Bytes that `s` takes in UTF-8.
pub open spec fn utf8_len(s: Seq<char>) -> int
    decreases s.len(),
{
    if s.len() == 0 {
        0
    } else {
        utf8_len(s.drop_last()) + utf8_width(s.last())
    }
}

/// The longest key, in bytes, among the `key = value` lines.
pub open spec fn max_key(ls: Seq<Seq<char>>) -> int
    decreases ls.len(),
{
    if ls.len() == 0 {
        0
    } else {
        let m = max_key(ls.drop_last());
        let k = if is_keyed(ls.last()) {
            utf8_len(key_of(ls.last()))
        } else {
            0
        };
        if k > m {
            k
        } else {
            m
        }
    }
}

/// A `key = value` line with its key padded to `width` bytes.
pub open spec fn aligned(l: Seq<char>, width: int) -> Seq<char> {
    if is_keyed(l) {
        key_of(l) + Seq::new((width - utf8_len(key_of(l))) as nat, |i: int| ' ') + " = "@
            + value_of(l)
    } else {
        l
    }
}

pub open spec fn align_all(ls: Seq<Seq<char>>) -> Seq<Seq<char>> {
    ls.map_values(|l: Seq<char>| aligned(l, max_key(ls)))
}

/// The lines, each followed by a newline but the last.
pub open spec fn join_lines(ls: Seq<Seq<char>>) -> Seq<char>
    decreases ls.len(),
{
    if ls.len() == 0 {
        Seq::empty()
    } else if ls.len() == 1 {
        ls[0]
    } else {
        join_lines(ls.drop_last()) + "\n"@ + ls.last()
    }
}

/// The text of the lines, derived values made comments and keys aligned.
pub open spec fn laid_out(ls: Seq<Seq<char>>) -> Seq<char> {
    join_lines(align_all(ls.map_values(|l: Seq<char>| commentify(l))))
}

pub open spec fn lines_view(v: Seq<Vec<char>>) -> Seq<Seq<char>> {
    v.map_values(|l: Vec<char>| l@)
}

fn name_run_exec(l: &Vec<char>, i: usize) -> (r: usize)
    requires
        i <= l.len(),
    ensures
        r == name_run(l@, i as int),
        i + r <= l.len(),
{
    let mut j = i;
    while j < l.len() && (('a' <= l[j] && l[j] <= 'z') || ('A' <= l[j] && l[j] <= 'Z') || l[j]
        == '_' || l[j] == '-' || ('0' <= l[j] && l[j] <= '9'))
        invariant
            i <= j <= l.len(),
            name_run(l@, i as int) == (j - i) + name_run(l@, j as int),
        decreases l.len() - j,
    {
        j = j + 1;
    }
    j - i
}

fn ws_run_exec(l: &Vec<char>, i: usize) -> (r: usize)
    requires
        i <= l.len(),
    ensures
        r == ws_run(l@, i as int),
        i + r <= l.len(),
{
    let mut j = i;
    while j < l.len() && is_ws_exec(l[j])
        invariant
            i <= j <= l.len(),
            ws_run(l@, i as int) == (j - i) + ws_run(l@, j as int),
        decreases l.len() - j,
    {
        j = j + 1;
    }
    j - i
}

fn is_derived_exec(l: &Vec<char>) -> (r: bool)
    ensures
        r == is_derived(l@),
{
    if l.len() < 3 || l[0] != '-' || l[1] != '-' {
        return false;
    }
    let c = l[2];
    if !(('a' <= c && c <= 'z') || ('A' <= c && c <= 'Z') || c == '_' || c == '-') {
        return false;
    }
    let a = 2 + name_run_exec(l, 2);
    let b = a + ws_run_exec(l, a);
    b < l.len() - 1 && l[b] == '='
}

fn commentify_exec(l: &Vec<char>) -> (r: Vec<char>)
    ensures
        r@ == commentify(l@),
{
    let mut r: Vec<char> = Vec::new();
    if is_derived_exec(l) {
        r.push('#');
        r.push(' ');
        proof {
            reveal_strlit("# ");
        }
        assert(r@ =~= "# "@ + l@.subrange(2, 2));
        let mut i: usize = 2;
        while i < l.len()
            invariant
                2 <= i <= l.len(),
                r@ == "# "@ + l@.subrange(2, i as int),
            decreases l.len() - i,
        {
            r.push(l[i]);
            i = i + 1;
            assert(r@ =~= "# "@ + l@.subrange(2, i as int));
        }
        proof {
            reveal_strlit("# ");
        }
        assert(r@ =~= "# "@ + l@.subrange(2, l.len() as int));
    } else {
        let mut i: usize = 0;
        while i < l.len()
            invariant
                i <= l.len(),
                r@ == l@.subrange(0, i as int),
            decreases l.len() - i,
        {
            r.push(l[i]);
            i = i + 1;
            assert(r@ =~= l@.subrange(0, i as int));
        }
        assert(r@ =~= l@);
    }
    r
}

pub(crate) fn find_eq_exec(l: &Vec<char>) -> (r: usize)
    ensures
        r == find_eq(l@, 0),
        r <= l.len(),
{
    let mut j: usize = 0;
    while j < l.len() && l[j] != '='
        invariant
            j <= l.len(),
            find_eq(l@, 0) == find_eq(l@, j as int),
        decreases l.len() - j,
    {
        j = j + 1;
    }
    j
}

proof fn lemma_trailing_ws_bound(l: Seq<char>)
    ensures
        0 <= trailing_ws(l) <= l.len(),
    decreases l.len(),
{
    if l.len() > 0 && is_ws(l.last()) {
        lemma_trailing_ws_bound(l.drop_last());
    }
}

proof fn lemma_ws_run_bound(l: Seq<char>, i: int)
    requires
        0 <= i <= l.len(),
    ensures
        0 <= ws_run(l, i) <= l.len() - i,
    decreases l.len() - i,
{
    if i < l.len() && is_ws(l[i]) {
        lemma_ws_run_bound(l, i + 1);
    }
}

/// The characters of `l` from `a` up to `b`, with whitespace trimmed off both ends.
pub(crate) fn trimmed(l: &Vec<char>, a: usize, b: usize) -> (r: Vec<char>)
    requires
        a <= b <= l.len(),
    ensures
        r@ == trim(l@.subrange(a as int, b as int)),
{
    let ghost s = l@.subrange(a as int, b as int);
    let mut i = a;
    while i < b && is_ws_exec(l[i])
        invariant
            a <= i <= b <= l.len(),
            s == l@.subrange(a as int, b as int),
            ws_run(s, 0) == (i - a) + ws_run(s, i - a),
        decreases b - i,
    {
        assert(s[i - a] == l@[i as int]);
        i = i + 1;
    }
    proof {
        if i < b {
            assert(s[i - a] == l@[i as int]);
        }
        assert(ws_run(s, i - a) == 0);
    }
    let ghost rest = s.subrange(i - a, s.len() as int);
    let mut j = b;
    assert(rest =~= l@.subrange(i as int, b as int));
    assert(rest.subrange(0, j - i) =~= rest);
    while j > i && is_ws_exec(l[j - 1])
        invariant
            i <= j <= b,
            a <= i,
            b <= l.len(),
            rest == l@.subrange(i as int, b as int),
            trailing_ws(rest) == (b - j) + trailing_ws(rest.subrange(0, j - i)),
        decreases j - i,
    {
        assert(rest.subrange(0, j - i).last() == l@[j - 1]);
        assert(rest.subrange(0, j - i).drop_last() =~= rest.subrange(0, j - 1 - i));
        j = j - 1;
    }
    proof {
        if j > i {
            assert(rest.subrange(0, j - i).last() == l@[j - 1]);
        }
        assert(trailing_ws(rest.subrange(0, j - i)) == 0);
    }
    let mut r: Vec<char> = Vec::new();
    let mut k = i;
    while k < j
        invariant
            i <= k <= j <= b <= l.len(),
            r@ == l@.subrange(i as int, k as int),
        decreases j - k,
    {
        r.push(l[k]);
        k = k + 1;
        assert(r@ =~= l@.subrange(i as int, k as int));
    }
    assert(r@ =~= rest.subrange(0, rest.len() - trailing_ws(rest)));
    r
}

fn utf8_len_exec(s: &Vec<char>) -> (r: u128)
    ensures
        r == utf8_len(s@),
{
    let mut n: u128 = 0;
    let mut i: usize = 0;
    while i < s.len()
        invariant
            i <= s.len(),
            n == utf8_len(s@.subrange(0, i as int)),
            n <= 4 * i,
        decreases s.len() - i,
    {
        let c = s[i];
        let w: u128 = if (c as u32) < 0x80 {
            1
        } else if (c as u32) < 0x800 {
            2
        } else if (c as u32) < 0x10000 {
            3
        } else {
            4
        };
        assert(s@.subrange(0, i + 1).drop_last() =~= s@.subrange(0, i as int));
        n = n + w;
        i = i + 1;
    }
    assert(s@.subrange(0, s.len() as int) =~= s@);
    n
}

fn is_keyed_exec(l: &Vec<char>) -> (r: bool)
    ensures
        r == is_keyed(l@),
{
    let e = find_eq_exec(l);
    if e >= l.len() {
        return false;
    }
    let w = ws_run_exec(l, 0);
    !(w < l.len() && l[w] == '#')
}

/// The key of a `key = value` line and its length in bytes.
fn key_exec(l: &Vec<char>) -> (r: (Vec<char>, u128))
    ensures
        r.0@ == key_of(l@),
        r.1 == utf8_len(key_of(l@)),
{
    let e = find_eq_exec(l);
    let k = trimmed(l, 0, e);
    let n = utf8_len_exec(&k);
    (k, n)
}

/// Lays out lines as a log's text: derived values become comments and the
/// `key = value` lines get their keys padded to one width.
pub fn lay_out(lines: &Vec<Vec<char>>) -> (r: Vec<char>)
    ensures
        r@ == laid_out(lines_view(lines@)),
{
    let ghost raw = lines_view(lines@);
    let ghost ls = raw.map_values(|l: Seq<char>| commentify(l));
    let mut cs: Vec<Vec<char>> = Vec::new();
    let mut i: usize = 0;
    while i < lines.len()
        invariant
            i <= lines.len(),
            raw == lines_view(lines@),
            lines_view(cs@) == raw.subrange(0, i as int).map_values(|l: Seq<char>| commentify(l)),
        decreases lines.len() - i,
    {
        let c = commentify_exec(&lines[i]);
        let ghost prev = lines_view(cs@);
        cs.push(c);
        assert(lines_view(cs@) =~= prev.push(c@));
        assert(raw.subrange(0, i + 1).map_values(|l: Seq<char>| commentify(l)) =~= raw.subrange(
            0,
            i as int,
        ).map_values(|l: Seq<char>| commentify(l)).push(commentify(raw[i as int])));
        i = i + 1;
        assert(lines_view(cs@) =~= raw.subrange(0, i as int).map_values(
            |l: Seq<char>| commentify(l),
        ));
    }
    assert(raw.subrange(0, lines.len() as int) =~= raw);
    assert(lines_view(cs@) == ls);
    let mut width: u128 = 0;
    let mut i: usize = 0;
    while i < cs.len()
        invariant
            i <= cs.len(),
            lines_view(cs@) == ls,
            width == max_key(ls.subrange(0, i as int)),
        decreases cs.len() - i,
    {
        assert(ls.subrange(0, i + 1).drop_last() =~= ls.subrange(0, i as int));
        assert(ls.subrange(0, i + 1).last() == cs@[i as int]@);
        if is_keyed_exec(&cs[i]) {
            let (_, n) = key_exec(&cs[i]);
            if n > width {
                width = n;
            }
        }
        i = i + 1;
    }
    assert(ls.subrange(0, cs.len() as int) =~= ls);
    let ghost al = align_all(ls);
    let mut out: Vec<char> = Vec::new();
    let mut i: usize = 0;
    while i < cs.len()
        invariant
            i <= cs.len(),
            lines_view(cs@) == ls,
            width == max_key(ls),
            al == align_all(ls),
            out@ == join_lines(al.subrange(0, i as int)),
        decreases cs.len() - i,
    {
        let ghost before = out@;
        if i > 0 {
            out.push('\n');
        }
        let line = &cs[i];
        if is_keyed_exec(line) {
            let (k, n) = key_exec(line);
            let e = find_eq_exec(line);
            let v = trimmed(line, e + 1, line.len());
            proof {
                lemma_max_key_bound(ls, i as int);
                reveal_strlit("\n");
            }
            crate::text::push_all(&mut out, &k);
            assert(out@ =~= before + (if i > 0 {
                "\n"@
            } else {
                Seq::empty()
            }) + k@ + Seq::new(0, |j: int| ' '));
            let mut p: u128 = n;
            while p < width
                invariant
                    n <= p <= width,
                    out@ == before + (if i > 0 {
                        "\n"@
                    } else {
                        Seq::empty()
                    }) + k@ + Seq::new((p - n) as nat, |j: int| ' '),
                decreases width - p,
            {
                out.push(' ');
                p = p + 1;
                assert(out@ =~= before + (if i > 0 {
                    "\n"@
                } else {
                    Seq::empty()
                }) + k@ + Seq::new((p - n) as nat, |j: int| ' '));
            }
            crate::text::push_str(&mut out, " = ");
            crate::text::push_all(&mut out, &v);
            assert(out@ =~= before + (if i > 0 {
                "\n"@
            } else {
                Seq::empty()
            }) + al[i as int]);
        } else {
            proof {
                reveal_strlit("\n");
            }
            crate::text::push_all(&mut out, line);
            assert(out@ =~= before + (if i > 0 {
                "\n"@
            } else {
                Seq::empty()
            }) + al[i as int]);
        }
        proof {
            reveal_strlit("\n");
            let s = al.subrange(0, i + 1);
            assert(s.drop_last() =~= al.subrange(0, i as int));
            if i == 0 {
                assert(join_lines(s) == s[0]);
                assert(out@ =~= s[0]);
            }
        }
        i = i + 1;
    }
    assert(al.subrange(0, cs.len() as int) =~= al);
    out
}

pub proof fn lemma_max_key_bound(ls: Seq<Seq<char>>, i: int)
    requires
        0 <= i < ls.len(),
        is_keyed(ls[i]),
    ensures
        utf8_len(key_of(ls[i])) <= max_key(ls),
    decreases ls.len(),
{
    if i < ls.len() - 1 {
        lemma_max_key_bound(ls.drop_last(), i);
        assert(ls.drop_last()[i] == ls[i]);
    }
}

} // verus!
