use vstd::prelude::*;

use crate::parse::digits2;
use crate::plan::{Plan, PlanView};
use crate::text::{digit_value, is_digit, to_chars};
use crate::time::{digit_at, slice_chars, Date};

verus! {

/// The date that `YYYYMMDD` denotes, if it exists.
pub open spec fn compact_date(s: Seq<char>) -> Option<Date> {
    if s.len() == 8 && (forall|i: int| 0 <= i < 8 ==> is_digit(#[trigger] s[i])) {
        let d = Date {
            year: crate::parse::digits4(s, 0) as i32,
            month: digits2(s, 4) as u32,
            day: digits2(s, 6) as u32,
        };
        if d.wf() {
            Some(d)
        } else {
            None
        }
    } else {
        None
    }
}

/// The source and date of a plan file named `<source>.<YYYYMMDD>.toml`; the
/// source is at least one character and holds no newline.
pub open spec fn plan_file_name(name: Seq<char>) -> Option<(Seq<char>, Date)> {
    let n = name.len() as int;
    if n >= 15 && name.subrange(n - 5, n) == ".toml"@ && name[n - 14] == '.' && (forall|i: int|
        0 <= i < n - 14 ==> #[trigger] name[i] != '\n') {
        match compact_date(name.subrange(n - 13, n - 5)) {
            Some(d) => Some((name.subrange(0, n - 14), d)),
            None => None,
        }
    } else {
        None
    }
}

fn parse_compact_date(s: &Vec<char>) -> (r: Option<Date>)
    ensures
        r == compact_date(s@),
{
    if s.len() != 8 {
        return None;
    }
    let mut ds: Vec<u32> = Vec::new();
    let mut i: usize = 0;
    while i < 8
        invariant
            i <= 8,
            s.len() == 8,
            ds.len() == i,
            forall|j: int| 0 <= j < i ==> is_digit(#[trigger] s@[j]) && ds@[j] == digit_value(s@[j]),
            forall|j: int| 0 <= j < i ==> ds@[j] < 10,
        decreases 8 - i,
    {
        match digit_at(s, i) {
            Some(d) => ds.push(d),
            None => {
                return None;
            },
        }
        i = i + 1;
    }
    let year = (ds[0] * 1000 + ds[1] * 100 + ds[2] * 10 + ds[3]) as i32;
    let month = ds[4] * 10 + ds[5];
    let day = ds[6] * 10 + ds[7];
    Date::new(year, month, day)
}

/// The source and date of a plan file's name, if it follows the naming rule.
pub fn parse_plan_filename(name: &str) -> (r: Option<(String, Date)>)
    ensures
        r matches Some(p) ==> plan_file_name(name@) == Some((p.0@, p.1)),
        r is None ==> plan_file_name(name@) is None,
{
    let v = to_chars(name);
    let n = v.len();
    if n < 15 || v[n - 14] != '.' {
        return None;
    }
    let ext = slice_chars(&v, n - 5, n);
    let dot_toml = to_chars(".toml");
    proof {
        reveal_strlit(".toml");
    }
    if !(ext[0] == dot_toml[0] && ext[1] == dot_toml[1] && ext[2] == dot_toml[2] && ext[3]
        == dot_toml[3] && ext[4] == dot_toml[4]) {
        return None;
    }
    assert(ext@ =~= ".toml"@);
    let mut i: usize = 0;
    while i < n - 14
        invariant
            i <= n - 14,
            n == v.len(),
            v@ == name@,
            forall|j: int| 0 <= j < i ==> #[trigger] v@[j] != '\n',
        decreases n - 14 - i,
    {
        if v[i] == '\n' {
            return None;
        }
        i = i + 1;
    }
    let digits = slice_chars(&v, n - 13, n - 5);
    match parse_compact_date(&digits) {
        Some(d) => {
            let src = slice_chars(&v, 0, n - 14);
            Some((crate::text::from_chars(src.as_slice()), d))
        },
        None => None,
    }
}

/// Where the first entry with this source stands, or the length.
pub open spec fn source_index(c: Seq<(Seq<char>, Date, int)>, src: Seq<char>) -> int
    decreases c.len(),
{
    if c.len() == 0 {
        0
    } else if source_index(c.drop_last(), src) < c.len() - 1 {
        source_index(c.drop_last(), src)
    } else if c.last().0 == src {
        c.len() - 1
    } else {
        c.len() as int
    }
}

/// For each source, the file with the latest date not after `date`, as
/// (source, date, index of the name); the first such name wins a tie.
pub open spec fn candidates(names: Seq<Seq<char>>, date: Date) -> Seq<(Seq<char>, Date, int)>
    decreases names.len(),
{
    if names.len() == 0 {
        Seq::empty()
    } else {
        let c = candidates(names.drop_last(), date);
        let k = names.len() - 1;
        match plan_file_name(names.last()) {
            Some((src, d)) => if d.key() <= date.key() {
                let p = source_index(c, src);
                if p < c.len() {
                    if d.key() > c[p].1.key() {
                        c.update(p, (src, d, k))
                    } else {
                        c
                    }
                } else {
                    c.push((src, d, k))
                }
            } else {
                c
            },
            None => c,
        }
    }
}

pub open spec fn names_view(v: Seq<String>) -> Seq<Seq<char>> {
    v.map_values(|s: String| s@)
}

proof fn lemma_source_index(c: Seq<(Seq<char>, Date, int)>, src: Seq<char>)
    ensures
        0 <= source_index(c, src) <= c.len(),
        source_index(c, src) < c.len() ==> c[source_index(c, src)].0 == src,
        forall|i: int| 0 <= i < source_index(c, src) ==> (#[trigger] c[i]).0 != src,
    decreases c.len(),
{
    if c.len() > 0 {
        lemma_source_index(c.drop_last(), src);
        let p = source_index(c.drop_last(), src);
        assert forall|i: int| 0 <= i < c.len() - 1 implies #[trigger] c[i] == c.drop_last()[i] by {}
        if p < c.len() - 1 {
            assert(c[p] == c.drop_last()[p]);
        }
    }
}

fn source_index_exec(c: &Vec<(String, Date, usize)>, src: &String) -> (r: usize)
    ensures
        r == source_index(cands_view(c@), src@),
{
    let ghost cv = cands_view(c@);
    proof {
        lemma_source_index(cv, src@);
    }
    let mut i: usize = 0;
    while i < c.len()
        invariant
            i <= c.len(),
            cv == cands_view(c@),
            forall|j: int| 0 <= j < i ==> (#[trigger] cv[j]).0 != src@,
        decreases c.len() - i,
    {
        assert(cv[i as int].0 == c@[i as int].0@);
        if c[i].0 == *src {
            proof {
                lemma_source_index(cv, src@);
                let p = source_index(cv, src@);
                if p < i {
                    assert(cv[p].0 == src@);
                }
                if p == cv.len() {
                    assert(cv[i as int].0 != src@);
                }
                assert(p == i);
            }
            return i;
        }
        assert(cv[i as int].0 != src@);
        i = i + 1;
    }
    proof {
        lemma_source_index(cv, src@);
        let p = source_index(cv, src@);
        if p < cv.len() {
            assert(cv[p].0 == src@);
        }
    }
    c.len()
}

pub open spec fn cands_view(c: Seq<(String, Date, usize)>) -> Seq<(Seq<char>, Date, int)> {
    c.map_values(|e: (String, Date, usize)| (e.0@, e.1, e.2 as int))
}

/// Of the plan files named, the one to read for each source on `date`: the
/// latest whose date is not after `date`. Gives indexes into `names`.
pub fn select_plan_files(names: &Vec<String>, date: &Date) -> (r: Vec<usize>)
    requires
        date.wf(),
    ensures
        r@.map_values(|k: usize| k as int) == candidates(names_view(names@), *date).map_values(
            |e: (Seq<char>, Date, int)| e.2,
        ),
{
    let ghost nv = names_view(names@);
    let mut c: Vec<(String, Date, usize)> = Vec::new();
    let mut i: usize = 0;
    while i < names.len()
        invariant
            i <= names.len(),
            date.wf(),
            nv == names_view(names@),
            cands_view(c@) == candidates(nv.subrange(0, i as int), *date),
            forall|j: int| 0 <= j < c.len() ==> (#[trigger] c@[j]).1.wf(),
        decreases names.len() - i,
    {
        let ghost before = cands_view(c@);
        assert(nv.subrange(0, i + 1).drop_last() =~= nv.subrange(0, i as int));
        assert(nv.subrange(0, i + 1).last() == names@[i as int]@);
        match parse_plan_filename(names[i].as_str()) {
            Some((src, d)) => {
                if d.is_on_or_before(date) {
                    let p = source_index_exec(&c, &src);
                    if p < c.len() {
                        if !d.is_on_or_before(&c[p].1) {
                            c.set(p, (src, d, i));
                            assert(cands_view(c@) =~= before.update(p as int, (src@, d, i as int)));
                        }
                    } else {
                        let ghost sv = src@;
                        c.push((src, d, i));
                        assert(cands_view(c@) =~= before.push((sv, d, i as int)));
                    }
                }
            },
            None => {},
        }
        i = i + 1;
    }
    assert(nv.subrange(0, names.len() as int) =~= nv);
    let mut r: Vec<usize> = Vec::new();
    let mut j: usize = 0;
    while j < c.len()
        invariant
            j <= c.len(),
            cands_view(c@) == candidates(nv, *date),
            r@.map_values(|k: usize| k as int) == cands_view(c@).subrange(0, j as int).map_values(
                |e: (Seq<char>, Date, int)| e.2,
            ),
        decreases c.len() - j,
    {
        let ghost prev = r@.map_values(|k: usize| k as int);
        r.push(c[j].2);
        assert(r@.map_values(|k: usize| k as int) =~= prev.push(c@[j as int].2 as int));
        assert(cands_view(c@).subrange(0, j + 1).map_values(|e: (Seq<char>, Date, int)| e.2)
            =~= cands_view(c@).subrange(0, j as int).map_values(|e: (Seq<char>, Date, int)| e.2).push(
            c@[j as int].2 as int,
        ));
        j = j + 1;
        assert(r@.map_values(|k: usize| k as int) =~= cands_view(c@).subrange(0, j as int).map_values(
            |e: (Seq<char>, Date, int)| e.2,
        ));
    }
    assert(cands_view(c@).subrange(0, c.len() as int) =~= cands_view(c@));
    r
}

/// A plan file of the naming rule dated no later than `date`.
pub open spec fn dated_file(name: Seq<char>, date: Date) -> bool {
    plan_file_name(name) is Some && plan_file_name(name)->Some_0.1.key() <= date.key()
}

pub open spec fn file_source(name: Seq<char>) -> Seq<char> {
    plan_file_name(name)->Some_0.0
}

pub open spec fn file_date(name: Seq<char>) -> Date {
    plan_file_name(name)->Some_0.1
}


pub open spec fn chosen_valid(names: Seq<Seq<char>>, date: Date, c: Seq<(Seq<char>, Date, int)>) -> bool {
    forall|i: int|
        0 <= i < c.len() ==> 0 <= (#[trigger] c[i]).2 < names.len() && plan_file_name(names[c[i].2])
            == Some((c[i].0, c[i].1)) && c[i].1.key() <= date.key()
}

pub open spec fn chosen_unique(c: Seq<(Seq<char>, Date, int)>) -> bool {
    forall|i: int, i2: int| 0 <= i < i2 < c.len() ==> (#[trigger] c[i]).0 != (#[trigger] c[i2]).0
}

pub open spec fn chosen_latest(names: Seq<Seq<char>>, date: Date, c: Seq<(Seq<char>, Date, int)>) -> bool {
    forall|i: int, j: int|
        0 <= i < c.len() && 0 <= j < names.len() && dated_file(#[trigger] names[j], date)
            && file_source(names[j]) == (#[trigger] c[i]).0 ==> file_date(names[j]).key()
            <= c[i].1.key()
}

pub open spec fn chosen_cover(names: Seq<Seq<char>>, date: Date, c: Seq<(Seq<char>, Date, int)>) -> bool {
    forall|j: int|
        0 <= j < names.len() && dated_file(#[trigger] names[j], date) ==> exists|i: int|
            0 <= i < c.len() && (#[trigger] c[i]).0 == file_source(names[j])
}

proof fn lemma_step_valid(names: Seq<Seq<char>>, date: Date)
    requires
        names.len() > 0,
        chosen_valid(names.drop_last(), date, candidates(names.drop_last(), date)),
    ensures
        chosen_valid(names, date, candidates(names, date)),
{
    let prev = names.drop_last();
    let c = candidates(prev, date);
    let n = candidates(names, date);
    assert forall|i: int|
        0 <= i < n.len() implies 0 <= (#[trigger] n[i]).2 < names.len() && plan_file_name(
        names[n[i].2],
    ) == Some((n[i].0, n[i].1)) && n[i].1.key() <= date.key() by {
        if i < c.len() && n[i] == c[i] {
            assert(prev[c[i].2] == names[c[i].2]);
        } else {
            lemma_source_index(c, file_source(names.last()));
            assert(n[i] == (file_source(names.last()), file_date(names.last()), names.len() - 1));
            assert(names[names.len() - 1] == names.last());
        }
    }
}

proof fn lemma_step_unique(names: Seq<Seq<char>>, date: Date)
    requires
        names.len() > 0,
        chosen_unique(candidates(names.drop_last(), date)),
    ensures
        chosen_unique(candidates(names, date)),
{
    let prev = names.drop_last();
    let c = candidates(prev, date);
    let n = candidates(names, date);
    if dated_file(names.last(), date) {
        let src = file_source(names.last());
        lemma_source_index(c, src);
        let p = source_index(c, src);
        assert forall|i: int, i2: int| 0 <= i < i2 < n.len() implies (#[trigger] n[i]).0
            != (#[trigger] n[i2]).0 by {
            if i2 == c.len() {
                assert(n[i] == c[i]);
            } else if i == p {
                assert(n[i2] == c[i2]);
            } else if i2 == p {
                assert(n[i] == c[i]);
            } else {
                assert(n[i] == c[i]);
                assert(n[i2] == c[i2]);
            }
        }
    }
}

proof fn lemma_step_latest(names: Seq<Seq<char>>, date: Date)
    requires
        names.len() > 0,
        chosen_latest(names.drop_last(), date, candidates(names.drop_last(), date)),
        chosen_cover(names.drop_last(), date, candidates(names.drop_last(), date)),
        chosen_unique(candidates(names.drop_last(), date)),
    ensures
        chosen_latest(names, date, candidates(names, date)),
{
    let prev = names.drop_last();
    let c = candidates(prev, date);
    let n = candidates(names, date);
    let k = names.len() - 1;
    if dated_file(names.last(), date) {
        let src = file_source(names.last());
        lemma_source_index(c, src);
        let p = source_index(c, src);
        assert forall|i: int, j: int|
            0 <= i < n.len() && 0 <= j < names.len() && dated_file(#[trigger] names[j], date)
                && file_source(names[j]) == (#[trigger] n[i]).0 implies file_date(
            names[j],
        ).key() <= n[i].1.key() by {
            if j < prev.len() {
                assert(prev[j] == names[j]);
                if i < c.len() && n[i] == c[i] {
                } else if i == c.len() {
                    let ii = choose|ii: int| 0 <= ii < c.len() && (#[trigger] c[ii]).0 == file_source(prev[j]);
                    assert(c[ii].0 == src);
                } else {
                    assert(c[p].0 == src);
                }
            } else {
                if i < c.len() && n[i] == c[i] {
                    if p != i {
                        assert(c[p].0 == src);
                    }
                }
            }
        }
    } else {
        assert forall|i: int, j: int|
            0 <= i < n.len() && 0 <= j < names.len() && dated_file(#[trigger] names[j], date)
                && file_source(names[j]) == (#[trigger] n[i]).0 implies file_date(
            names[j],
        ).key() <= n[i].1.key() by {
            assert(prev[j] == names[j]);
        }
    }
}

proof fn lemma_step_cover(names: Seq<Seq<char>>, date: Date)
    requires
        names.len() > 0,
        chosen_cover(names.drop_last(), date, candidates(names.drop_last(), date)),
    ensures
        chosen_cover(names, date, candidates(names, date)),
{
    let prev = names.drop_last();
    let c = candidates(prev, date);
    let n = candidates(names, date);
    if dated_file(names.last(), date) {
        let src = file_source(names.last());
        lemma_source_index(c, src);
        let p = source_index(c, src);
        assert forall|j: int| 0 <= j < names.len() && dated_file(#[trigger] names[j], date)
            implies exists|i: int| 0 <= i < n.len() && (#[trigger] n[i]).0 == file_source(
            names[j],
        ) by {
            if j < prev.len() {
                assert(prev[j] == names[j]);
                let ii = choose|ii: int|
                    0 <= ii < c.len() && (#[trigger] c[ii]).0 == file_source(prev[j]);
                if ii == p {
                    assert(n[ii].0 == src);
                } else {
                    assert(n[ii] == c[ii]);
                }
            } else if p < c.len() {
                assert(n[p].0 == src);
            } else {
                assert(n[c.len() as int].0 == src);
            }
        }
    } else {
        assert forall|j: int| 0 <= j < names.len() && dated_file(#[trigger] names[j], date)
            implies exists|i: int| 0 <= i < n.len() && (#[trigger] n[i]).0 == file_source(
            names[j],
        ) by {
            assert(prev[j] == names[j]);
        }
    }
}

/// The files chosen for `date` are, for each source with a file dated no
/// later than `date`, one such file, and none of that source's files so
/// dated is later than it.
pub proof fn lemma_latest_file_wins(names: Seq<Seq<char>>, date: Date)
    ensures
        chosen_valid(names, date, candidates(names, date)),
        chosen_unique(candidates(names, date)),
        chosen_latest(names, date, candidates(names, date)),
        chosen_cover(names, date, candidates(names, date)),
    decreases names.len(),
{
    if names.len() > 0 {
        lemma_latest_file_wins(names.drop_last(), date);
        lemma_step_valid(names, date);
        lemma_step_unique(names, date);
        lemma_step_latest(names, date);
        lemma_step_cover(names, date);
    }
}

/// Where the first plan of this source stands, or the length.
pub open spec fn plan_index(acc: Seq<PlanView>, src: Seq<char>) -> int
    decreases acc.len(),
{
    if acc.len() == 0 {
        0
    } else if acc[0].source == src {
        0
    } else {
        1 + plan_index(acc.drop_first(), src)
    }
}

proof fn lemma_plan_index(acc: Seq<PlanView>, src: Seq<char>)
    ensures
        0 <= plan_index(acc, src) <= acc.len(),
        plan_index(acc, src) < acc.len() ==> acc[plan_index(acc, src)].source == src,
        forall|i: int| 0 <= i < plan_index(acc, src) ==> (#[trigger] acc[i]).source != src,
    decreases acc.len(),
{
    if acc.len() > 0 && acc[0].source != src {
        lemma_plan_index(acc.drop_first(), src);
        assert forall|i: int| 1 <= i < acc.len() implies #[trigger] acc[i] == acc.drop_first()[i - 1] by {}
    }
}

/// `acc` with plan `p` merged in for `date`: a plan not valid on `date` is
/// left out; of two plans of one source the later `valid_from` stays.
pub open spec fn merge_plan(acc: Seq<PlanView>, p: PlanView, date: Date) -> Seq<PlanView> {
    if !p.valid_on(date) {
        acc
    } else {
        let i = plan_index(acc, p.source);
        if i < acc.len() {
            if p.valid_from.key() > acc[i].valid_from.key() {
                acc.update(i, p)
            } else {
                acc
            }
        } else {
            acc.push(p)
        }
    }
}

/// The plans in force on `date`, at most one per source.
pub open spec fn resolved(ps: Seq<PlanView>, date: Date) -> Seq<PlanView>
    decreases ps.len(),
{
    if ps.len() == 0 {
        Seq::empty()
    } else {
        merge_plan(resolved(ps.drop_last(), date), ps.last(), date)
    }
}

pub open spec fn plans_view(v: Seq<Plan>) -> Seq<PlanView> {
    v.map_values(|p: Plan| p@)
}

fn plan_index_exec(acc: &Vec<Plan>, src: &String) -> (r: usize)
    ensures
        r == plan_index(plans_view(acc@), src@),
{
    let ghost av = plans_view(acc@);
    let mut i: usize = 0;
    while i < acc.len()
        invariant
            i <= acc.len(),
            av == plans_view(acc@),
            forall|j: int| 0 <= j < i ==> (#[trigger] av[j]).source != src@,
        decreases acc.len() - i,
    {
        assert(av[i as int].source == acc@[i as int].source@);
        if acc[i].source == *src {
            proof {
                lemma_plan_index(av, src@);
                let p = plan_index(av, src@);
                if p < i {
                    assert(av[p].source == src@);
                }
            }
            return i;
        }
        i = i + 1;
    }
    proof {
        lemma_plan_index(av, src@);
        let p = plan_index(av, src@);
        if p < av.len() {
            assert(av[p].source == src@);
        }
    }
    acc.len()
}

/// The plans in force on `date`: those valid on it, one per source, the one
/// with the latest `valid_from` where a source has several.
pub fn resolve_plans(plans: &Vec<Plan>, date: &Date) -> (r: Vec<Plan>)
    requires
        date.wf(),
        forall|i: int| 0 <= i < plans.len() ==> (#[trigger] plans@[i])@.wf(),
    ensures
        plans_view(r@) == resolved(plans_view(plans@), *date),
{
    let ghost pv = plans_view(plans@);
    let mut acc: Vec<Plan> = Vec::new();
    let mut i: usize = 0;
    while i < plans.len()
        invariant
            i <= plans.len(),
            date.wf(),
            pv == plans_view(plans@),
            forall|k: int| 0 <= k < plans.len() ==> (#[trigger] plans@[k])@.wf(),
            forall|k: int| 0 <= k < acc.len() ==> (#[trigger] acc@[k])@.wf(),
            plans_view(acc@) == resolved(pv.subrange(0, i as int), *date),
        decreases plans.len() - i,
    {
        let ghost before = plans_view(acc@);
        assert(pv.subrange(0, i + 1).drop_last() =~= pv.subrange(0, i as int));
        assert(pv.subrange(0, i + 1).last() == plans@[i as int]@);
        let p = &plans[i];
        assert(p@.wf());
        if p.is_valid_on(date) {
            let k = plan_index_exec(&acc, &p.source);
            if k < acc.len() {
                proof {
                    lemma_plan_index(before, p@.source);
                }
                assert(acc@[k as int]@.wf());
                if !p.valid_from.is_on_or_before(&acc[k].valid_from) {
                    let c = p.copy();
                    acc.set(k, c);
                    assert(plans_view(acc@) =~= before.update(k as int, p@));
                }
            } else {
                let c = p.copy();
                acc.push(c);
                assert(plans_view(acc@) =~= before.push(p@));
            }
        }
        i = i + 1;
    }
    assert(pv.subrange(0, plans.len() as int) =~= pv);
    acc
}

/// Plans already resolved, by the date they were resolved for.
pub struct PlanCache {
    pub entries: Vec<(Date, Vec<Plan>)>,
}

/// The plans remembered for `d`, the latest entry first.
pub open spec fn cache_lookup(c: Seq<(Date, Seq<PlanView>)>, d: Date) -> Option<Seq<PlanView>>
    decreases c.len(),
{
    if c.len() == 0 {
        None
    } else if c[0].0 == d {
        Some(c[0].1)
    } else {
        cache_lookup(c.drop_first(), d)
    }
}

impl View for PlanCache {
    type V = Seq<(Date, Seq<PlanView>)>;

    open spec fn view(&self) -> Seq<(Date, Seq<PlanView>)> {
        self.entries@.map_values(|e: (Date, Vec<Plan>)| (e.0, plans_view(e.1@)))
    }
}

pub fn clone_plans(v: &Vec<Plan>) -> (r: Vec<Plan>)
    ensures
        plans_view(r@) == plans_view(v@),
{
    let mut r: Vec<Plan> = Vec::new();
    let mut i: usize = 0;
    while i < v.len()
        invariant
            i <= v.len(),
            plans_view(r@) == plans_view(v@).subrange(0, i as int),
        decreases v.len() - i,
    {
        let ghost before = plans_view(r@);
        let c = v[i].copy();
        r.push(c);
        assert(plans_view(r@) =~= before.push(c@));
        i = i + 1;
        assert(plans_view(r@) =~= plans_view(v@).subrange(0, i as int));
    }
    assert(plans_view(v@).subrange(0, v.len() as int) =~= plans_view(v@));
    r
}

impl PlanCache {
    /// An empty cache.
    pub fn new() -> (r: PlanCache)
        ensures
            r@ == Seq::<(Date, Seq<PlanView>)>::empty(),
    {
        let r = PlanCache { entries: Vec::new() };
        assert(r@ =~= Seq::<(Date, Seq<PlanView>)>::empty());
        r
    }

    /// The plans remembered for `d`.
    pub fn get(&self, d: &Date) -> (r: Option<Vec<Plan>>)
        ensures
            r matches Some(v) ==> cache_lookup(self@, *d) == Some(plans_view(v@)),
            r is None ==> cache_lookup(self@, *d) is None,
    {
        let ghost all = self@;
        assert(all.subrange(0, all.len() as int) =~= all);
        let mut i: usize = 0;
        while i < self.entries.len()
            invariant
                i <= self.entries.len(),
                all == self@,
                cache_lookup(all, *d) == cache_lookup(all.subrange(i as int, all.len() as int), *d),
            decreases self.entries.len() - i,
        {
            let ghost rest = all.subrange(i as int, all.len() as int);
            assert(rest[0] == (self.entries@[i as int].0, plans_view(self.entries@[i as int].1@)));
            if self.entries[i].0 == *d {
                return Some(clone_plans(&self.entries[i].1));
            }
            assert(rest.drop_first() =~= all.subrange(i + 1, all.len() as int));
            i = i + 1;
        }
        None
    }

    /// Remembers `plans` for `d`.
    pub fn put(&mut self, d: Date, plans: Vec<Plan>)
        ensures
            final(self)@ == seq![(d, plans_view(plans@))] + old(self)@,
    {
        let ghost before = self@;
        let ghost pv = plans_view(plans@);
        self.entries.insert(0, (d, plans));
        assert(self@ =~= seq![(d, pv)] + before);
    }

    /// Forgets everything: a plan was written.
    pub fn clear(&mut self)
        ensures
            final(self)@ == Seq::<(Date, Seq<PlanView>)>::empty(),
    {
        self.entries = Vec::new();
        assert(self@ =~= Seq::<(Date, Seq<PlanView>)>::empty());
    }
}

/// What is remembered for a date is found again for it, and after a clear
/// nothing is found for any date, so the next query reads the plans afresh.
pub proof fn lemma_cache_round(c: Seq<(Date, Seq<PlanView>)>, d: Date, ps: Seq<PlanView>, e: Date)
    ensures
        cache_lookup(seq![(d, ps)] + c, d) == Some(ps),
        e != d ==> cache_lookup(seq![(d, ps)] + c, e) == cache_lookup(c, e),
        cache_lookup(Seq::empty(), e) is None,
{
    assert((seq![(d, ps)] + c).drop_first() =~= c);
}

} // verus!
