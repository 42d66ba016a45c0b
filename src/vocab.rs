use vstd::prelude::*;

use crate::codec::labels_view;
use crate::intent::{same_intent, strings_view, Intent, IntentView};
use crate::layout::lines_view;
use crate::plan::{clone_intents, intents_view, Plan, PlanView};
use crate::resolver::plans_view;
use crate::text::{from_chars, push_str, to_chars};
use crate::time::Date;

verus! {

/// `a` comes before `b` in the order of `str`'s `<`: character by
/// character, a prefix first.
pub open spec fn lex_lt(a: Seq<char>, b: Seq<char>) -> bool
    decreases a.len(),
{
    if b.len() == 0 {
        false
    } else if a.len() == 0 {
        true
    } else if a[0] != b[0] {
        a[0] < b[0]
    } else {
        lex_lt(a.drop_first(), b.drop_first())
    }
}

proof fn lemma_lex_irreflexive(a: Seq<char>)
    ensures
        !lex_lt(a, a),
    decreases a.len(),
{
    if a.len() > 0 {
        lemma_lex_irreflexive(a.drop_first());
    }
}

proof fn lemma_lex_trans(a: Seq<char>, b: Seq<char>, c: Seq<char>)
    requires
        lex_lt(a, b),
        lex_lt(b, c),
    ensures
        lex_lt(a, c),
    decreases a.len(),
{
    if a.len() > 0 && b.len() > 0 && c.len() > 0 && a[0] == b[0] && b[0] == c[0] {
        lemma_lex_trans(a.drop_first(), b.drop_first(), c.drop_first());
    }
}

proof fn lemma_lex_total(a: Seq<char>, b: Seq<char>)
    requires
        a != b,
    ensures
        lex_lt(a, b) || lex_lt(b, a),
    decreases a.len(),
{
    if a.len() > 0 && b.len() > 0 && a[0] == b[0] {
        if a.drop_first() == b.drop_first() {
            assert(a =~= seq![a[0]] + a.drop_first());
            assert(b =~= seq![b[0]] + b.drop_first());
        }
        lemma_lex_total(a.drop_first(), b.drop_first());
    } else if a.len() == 0 && b.len() == 0 {
        assert(a =~= b);
    }
}

/// Whether `a` comes before `b`.
pub fn lex_less(a: &Vec<char>, b: &Vec<char>) -> (r: bool)
    ensures
        r == lex_lt(a@, b@),
{
    let mut k: usize = 0;
    assert(a@.subrange(0, a.len() as int) =~= a@);
    assert(b@.subrange(0, b.len() as int) =~= b@);
    while k < a.len() && k < b.len() && a[k] == b[k]
        invariant
            k <= a.len(),
            k <= b.len(),
            lex_lt(a@, b@) == lex_lt(
                a@.subrange(k as int, a.len() as int),
                b@.subrange(k as int, b.len() as int),
            ),
        decreases a.len() - k,
    {
        assert(a@.subrange(k as int, a.len() as int).drop_first() =~= a@.subrange(
            k + 1,
            a.len() as int,
        ));
        assert(b@.subrange(k as int, b.len() as int).drop_first() =~= b@.subrange(
            k + 1,
            b.len() as int,
        ));
        k = k + 1;
    }
    if k >= b.len() {
        false
    } else if k >= a.len() {
        true
    } else {
        a[k] < b[k]
    }
}

/// Each item comes before the next, so none is repeated.
pub open spec fn strictly_sorted(s: Seq<Seq<char>>) -> bool {
    forall|i: int, j: int| 0 <= i < j < s.len() ==> lex_lt(#[trigger] s[i], #[trigger] s[j])
}

/// Puts `x` in its place in a sorted list, unless it is there already.
fn insert_sorted(v: &mut Vec<Vec<char>>, x: Vec<char>)
    requires
        strictly_sorted(lines_view(old(v)@)),
    ensures
        strictly_sorted(lines_view(final(v)@)),
        lines_view(final(v)@).to_set() == lines_view(old(v)@).to_set().insert(x@),
{
    let ghost s = lines_view(v@);
    let mut p: usize = 0;
    while p < v.len() && lex_less(&v[p], &x)
        invariant
            p <= v.len(),
            s == lines_view(v@),
            forall|i: int| 0 <= i < p ==> lex_lt(#[trigger] s[i], x@),
        decreases v.len() - p,
    {
        p = p + 1;
    }
    if p < v.len() && !lex_less(&x, &v[p]) {
        proof {
            if s[p as int] != x@ {
                lemma_lex_total(s[p as int], x@);
            }
            assert(s[p as int] == x@);
            assert(s.to_set().insert(x@) =~= s.to_set());
        }
        return ;
    }
    let ghost xv = x@;
    v.insert(p, x);
    proof {
        let n = lines_view(v@);
        assert(n =~= s.insert(p as int, xv));
        assert forall|i: int, j: int| 0 <= i < j < n.len() implies lex_lt(
            #[trigger] n[i],
            #[trigger] n[j],
        ) by {
            if j < p {
            } else if j == p {
            } else if i < p {
                assert(n[j] == s[j - 1]);
                if j - 1 > p {
                    lemma_lex_trans(xv, s[p as int], s[j - 1]);
                }
                lemma_lex_trans(s[i], xv, s[j - 1]);
            } else if i == p {
                assert(n[j] == s[j - 1]);
                if j - 1 > p {
                    lemma_lex_trans(xv, s[p as int], s[j - 1]);
                }
            } else {
                assert(n[i] == s[i - 1]);
                assert(n[j] == s[j - 1]);
            }
        }
        assert forall|y| n.to_set().contains(y) <==> s.to_set().insert(xv).contains(y) by {
            if n.to_set().contains(y) {
                let k = choose|k: int| 0 <= k < n.len() && n[k] == y;
                if k < p {
                    assert(s[k] == y);
                } else if k > p {
                    assert(s[k - 1] == y);
                }
            }
            if s.to_set().contains(y) {
                let k = choose|k: int| 0 <= k < s.len() && s[k] == y;
                if k < p {
                    assert(n[k] == y);
                } else {
                    assert(n[k + 1] == y);
                }
            }
            if y == xv {
                assert(n[p as int] == xv);
            }
        }
        assert(n.to_set() =~= s.to_set().insert(xv));
    }
}

/// A kind of vocabulary term.
#[derive(Clone, Copy, Debug, PartialEq, Eq, Structural)]
pub enum TermKind {
    Role,
    Objective,
    Action,
    Subject,
}

pub open spec fn plan_terms(p: PlanView, k: TermKind) -> Seq<Seq<char>> {
    match k {
        TermKind::Role => p.roles,
        TermKind::Objective => p.objectives,
        TermKind::Action => p.actions,
        TermKind::Subject => p.subjects,
    }
}

pub open spec fn intent_term(i: IntentView, k: TermKind) -> Option<Seq<char>> {
    match k {
        TermKind::Role => i.role,
        TermKind::Objective => i.objective,
        TermKind::Action => i.action,
        TermKind::Subject => i.subject,
    }
}

/// `"{source}:{term}"`.
pub open spec fn prefixed(source: Seq<char>, t: Seq<char>) -> Seq<char> {
    source + ":"@ + t
}

/// The terms of the intents that have one.
pub open spec fn intents_terms(is: Seq<IntentView>, k: TermKind) -> Seq<Seq<char>>
    decreases is.len(),
{
    if is.len() == 0 {
        Seq::empty()
    } else {
        intents_terms(is.drop_last(), k) + match intent_term(is.last(), k) {
            Some(t) => seq![t],
            None => Seq::empty(),
        }
    }
}

/// One plan's terms: its own prefixed by its source, then its intents' as they are.
pub open spec fn plan_all_terms(p: PlanView, k: TermKind) -> Seq<Seq<char>> {
    plan_terms(p, k).map_values(|t: Seq<char>| prefixed(p.source, t)) + intents_terms(p.intents, k)
}

pub open spec fn all_terms(ps: Seq<PlanView>, k: TermKind) -> Seq<Seq<char>>
    decreases ps.len(),
{
    if ps.len() == 0 {
        Seq::empty()
    } else {
        all_terms(ps.drop_last(), k) + plan_all_terms(ps.last(), k)
    }
}

fn plan_terms_exec(p: &Plan, k: TermKind) -> (r: &Vec<String>)
    ensures
        strings_view(*r) == plan_terms(p@, k),
{
    match k {
        TermKind::Role => &p.roles,
        TermKind::Objective => &p.objectives,
        TermKind::Action => &p.actions,
        TermKind::Subject => &p.subjects,
    }
}

fn intent_term_exec(i: &Intent, k: TermKind) -> (r: &Option<String>)
    ensures
        crate::intent::opt_view(*r) == intent_term(i@, k),
{
    match k {
        TermKind::Role => &i.role,
        TermKind::Objective => &i.objective,
        TermKind::Action => &i.action,
        TermKind::Subject => &i.subject,
    }
}

proof fn lemma_set_push(a: Seq<Seq<char>>, x: Seq<char>)
    ensures
        a.push(x).to_set() == a.to_set().insert(x),
{
    a.lemma_push_to_set_commute(x);
}

/// The terms of a kind in the plans: each plan's own, prefixed with its
/// source, and its intents' as they are; sorted, without repeats.
pub fn vocabulary(plans: &Vec<Plan>, k: TermKind) -> (r: Vec<String>)
    ensures
        strictly_sorted(strings_view(r)),
        strings_view(r).to_set() == all_terms(plans_view(plans@), k).to_set(),
{
    let ghost pv = plans_view(plans@);
    let mut acc: Vec<Vec<char>> = Vec::new();
    let mut i: usize = 0;
    while i < plans.len()
        invariant
            i <= plans.len(),
            pv == plans_view(plans@),
            strictly_sorted(lines_view(acc@)),
            lines_view(acc@).to_set() == all_terms(pv.subrange(0, i as int), k).to_set(),
        decreases plans.len() - i,
    {
        let p = &plans[i];
        let ghost base = all_terms(pv.subrange(0, i as int), k);
        let ghost own = plan_terms(p@, k).map_values(|t: Seq<char>| prefixed(p@.source, t));
        let ts = plan_terms_exec(p, k);
        let mut j: usize = 0;
        while j < ts.len()
            invariant
                j <= ts.len(),
                strings_view(*ts) == plan_terms(p@, k),
                own == plan_terms(p@, k).map_values(|t: Seq<char>| prefixed(p@.source, t)),
                strictly_sorted(lines_view(acc@)),
                lines_view(acc@).to_set() == (base + own.subrange(0, j as int)).to_set(),
            decreases ts.len() - j,
        {
            let mut x: Vec<char> = Vec::new();
            push_str(&mut x, p.source.as_str());
            push_str(&mut x, ":");
            push_str(&mut x, ts[j].as_str());
            assert(x@ =~= prefixed(p@.source, plan_terms(p@, k)[j as int]));
            insert_sorted(&mut acc, x);
            proof {
                assert(own.subrange(0, j + 1) =~= own.subrange(0, j as int).push(own[j as int]));
                assert(base + own.subrange(0, j + 1) =~= (base + own.subrange(0, j as int)).push(
                    own[j as int],
                ));
                lemma_set_push(base + own.subrange(0, j as int), own[j as int]);
            }
            j = j + 1;
        }
        assert(own.subrange(0, ts.len() as int) =~= own);
        let ghost mid = base + own;
        let ghost is = p@.intents;
        let mut j: usize = 0;
        while j < p.intents.len()
            invariant
                j <= p.intents.len(),
                is == p@.intents,
                is == intents_view(p.intents@),
                strictly_sorted(lines_view(acc@)),
                lines_view(acc@).to_set() == (mid + intents_terms(is.subrange(0, j as int), k)).to_set(),
            decreases p.intents.len() - j,
        {
            let ghost prev = intents_terms(is.subrange(0, j as int), k);
            assert(is.subrange(0, j + 1).drop_last() =~= is.subrange(0, j as int));
            assert(is.subrange(0, j + 1).last() == p.intents@[j as int]@);
            match intent_term_exec(&p.intents[j], k) {
                Some(t) => {
                    let x = to_chars(t.as_str());
                    insert_sorted(&mut acc, x);
                    proof {
                        assert(intents_terms(is.subrange(0, j + 1), k) =~= prev.push(t@));
                        assert(mid + prev.push(t@) =~= (mid + prev).push(t@));
                        lemma_set_push(mid + prev, t@);
                    }
                },
                None => {
                    assert(intents_terms(is.subrange(0, j + 1), k) =~= prev);
                },
            }
            j = j + 1;
        }
        assert(is.subrange(0, p.intents.len() as int) =~= is);
        proof {
            assert(pv.subrange(0, i + 1).drop_last() =~= pv.subrange(0, i as int));
            assert(pv.subrange(0, i + 1).last() == p@);
            assert(all_terms(pv.subrange(0, i + 1), k) =~= base + (own + intents_terms(is, k)));
            assert(mid + intents_terms(is, k) =~= base + (own + intents_terms(is, k)));
        }
        i = i + 1;
    }
    assert(pv.subrange(0, plans.len() as int) =~= pv);
    let mut r: Vec<String> = Vec::new();
    let mut j: usize = 0;
    while j < acc.len()
        invariant
            j <= acc.len(),
            strings_view(r) == lines_view(acc@).subrange(0, j as int),
        decreases acc.len() - j,
    {
        let ghost before = strings_view(r);
        let s = from_chars(acc[j].as_slice());
        r.push(s);
        assert(strings_view(r) =~= before.push(s@));
        j = j + 1;
        assert(strings_view(r) =~= lines_view(acc@).subrange(0, j as int));
    }
    assert(lines_view(acc@).subrange(0, acc.len() as int) =~= lines_view(acc@));
    r
}

/// The roles of the plans: their own prefixed by source, and their intents'.
pub fn get_roles(plans: &Vec<Plan>) -> (r: Vec<String>)
    ensures
        strictly_sorted(strings_view(r)),
        strings_view(r).to_set() == all_terms(plans_view(plans@), TermKind::Role).to_set(),
{
    vocabulary(plans, TermKind::Role)
}

/// The objectives of the plans: their own prefixed by source, and their intents'.
pub fn get_objectives(plans: &Vec<Plan>) -> (r: Vec<String>)
    ensures
        strictly_sorted(strings_view(r)),
        strings_view(r).to_set() == all_terms(plans_view(plans@), TermKind::Objective).to_set(),
{
    vocabulary(plans, TermKind::Objective)
}

/// The actions of the plans: their own prefixed by source, and their intents'.
pub fn get_actions(plans: &Vec<Plan>) -> (r: Vec<String>)
    ensures
        strictly_sorted(strings_view(r)),
        strings_view(r).to_set() == all_terms(plans_view(plans@), TermKind::Action).to_set(),
{
    vocabulary(plans, TermKind::Action)
}

/// The subjects of the plans: their own prefixed by source, and their intents'.
pub fn get_subjects(plans: &Vec<Plan>) -> (r: Vec<String>)
    ensures
        strictly_sorted(strings_view(r)),
        strings_view(r).to_set() == all_terms(plans_view(plans@), TermKind::Subject).to_set(),
{
    vocabulary(plans, TermKind::Subject)
}

/// Each plan's trackers keyed `"{source}:{id}"`, plan after plan.
pub open spec fn tracker_entries(ps: Seq<PlanView>) -> Seq<(Seq<char>, Seq<char>)>
    decreases ps.len(),
{
    if ps.len() == 0 {
        Seq::empty()
    } else {
        tracker_entries(ps.drop_last()) + ps.last().trackers.map_values(
            |e: (Seq<char>, Seq<char>)| (prefixed(ps.last().source, e.0), e.1),
        )
    }
}

/// The trackers of the plans, keyed `"{source}:{id}"`, with their labels.
pub fn get_trackers(plans: &Vec<Plan>) -> (r: Vec<(String, String)>)
    ensures
        labels_view(r@) == tracker_entries(plans_view(plans@)),
{
    let ghost pv = plans_view(plans@);
    let mut r: Vec<(String, String)> = Vec::new();
    let mut i: usize = 0;
    while i < plans.len()
        invariant
            i <= plans.len(),
            pv == plans_view(plans@),
            labels_view(r@) == tracker_entries(pv.subrange(0, i as int)),
        decreases plans.len() - i,
    {
        let p = &plans[i];
        let ghost base = labels_view(r@);
        let ghost mapped = p@.trackers.map_values(
            |e: (Seq<char>, Seq<char>)| (prefixed(p@.source, e.0), e.1),
        );
        let mut j: usize = 0;
        while j < p.trackers.len()
            invariant
                j <= p.trackers.len(),
                mapped == p@.trackers.map_values(
                    |e: (Seq<char>, Seq<char>)| (prefixed(p@.source, e.0), e.1),
                ),
                labels_view(r@) == base + mapped.subrange(0, j as int),
            decreases p.trackers.len() - j,
        {
            let ghost before = labels_view(r@);
            let mut key: Vec<char> = Vec::new();
            push_str(&mut key, p.source.as_str());
            push_str(&mut key, ":");
            push_str(&mut key, p.trackers[j].0.as_str());
            let k = from_chars(key.as_slice());
            let l = p.trackers[j].1.clone();
            assert(k@ =~= prefixed(p@.source, p@.trackers[j as int].0));
            r.push((k, l));
            assert(labels_view(r@) =~= before.push((k@, l@)));
            assert(mapped.subrange(0, j + 1) =~= mapped.subrange(0, j as int).push(mapped[j as int]));
            j = j + 1;
        }
        assert(mapped.subrange(0, p.trackers.len() as int) =~= mapped);
        assert(pv.subrange(0, i + 1).drop_last() =~= pv.subrange(0, i as int));
        assert(pv.subrange(0, i + 1).last() == p@);
        i = i + 1;
    }
    assert(pv.subrange(0, plans.len() as int) =~= pv);
    r
}

pub open spec fn has_tracker(p: PlanView, id: Seq<char>) -> bool {
    exists|j: int| 0 <= j < p.trackers.len() && (#[trigger] p.trackers[j]).0 == id
}

/// Whether a plan has a tracker with this id.
fn plan_has_tracker(p: &Plan, id: &String) -> (r: bool)
    ensures
        r == has_tracker(p@, id@),
{
    let mut j: usize = 0;
    while j < p.trackers.len()
        invariant
            j <= p.trackers.len(),
            forall|k: int| 0 <= k < j ==> (#[trigger] p@.trackers[k]).0 != id@,
        decreases p.trackers.len() - j,
    {
        assert(p@.trackers[j as int].0 == p.trackers@[j as int].0@);
        if p.trackers[j].0 == *id {
            return true;
        }
        j = j + 1;
    }
    false
}

/// The first plan that has a tracker with this (unprefixed) id.
pub fn get_plan_by_tracker_id(plans: &Vec<Plan>, id: &String) -> (r: Option<Plan>)
    ensures
        r matches Some(p) ==> exists|i: int|
            0 <= i < plans.len() && p@ == (#[trigger] plans@[i])@ && has_tracker(plans@[i]@, id@)
                && forall|k: int| 0 <= k < i ==> !has_tracker(#[trigger] plans@[k]@, id@),
        r is None ==> forall|i: int| 0 <= i < plans.len() ==> !has_tracker(#[trigger] plans@[i]@, id@),
{
    let mut i: usize = 0;
    while i < plans.len()
        invariant
            i <= plans.len(),
            forall|k: int| 0 <= k < i ==> !has_tracker(#[trigger] plans@[k]@, id@),
        decreases plans.len() - i,
    {
        if plan_has_tracker(&plans[i], id) {
            return Some(plans[i].copy());
        }
        i = i + 1;
    }
    None
}

/// Some plan has an intent that is the same as `x`.
pub open spec fn intent_in_plans(ps: Seq<PlanView>, x: IntentView) -> bool {
    exists|i: int, j: int|
        0 <= i < ps.len() && 0 <= j < ps[i].intents.len() && same_intent(
            #[trigger] ps[i].intents[j],
            x,
        )
}

/// Some intent of `r` is the same as `x`.
pub open spec fn covered(r: Seq<IntentView>, x: IntentView) -> bool {
    exists|a: int| 0 <= a < r.len() && same_intent(#[trigger] r[a], x)
}

/// The intents of all the plans, one of each kind (trackers as a set).
pub fn get_intents(plans: &Vec<Plan>) -> (r: Vec<Intent>)
    ensures
        forall|a: int, b: int|
            0 <= a < b < r.len() ==> !same_intent(
                #[trigger] intents_view(r@)[a],
                #[trigger] intents_view(r@)[b],
            ),
        forall|a: int|
            0 <= a < r.len() ==> intent_in_plans(plans_view(plans@), #[trigger] intents_view(r@)[a]),
        forall|i: int, j: int|
            0 <= i < plans.len() && 0 <= j < plans_view(plans@)[i].intents.len() ==> covered(
                intents_view(r@),
                #[trigger] plans_view(plans@)[i].intents[j],
            ),
{
    let ghost pv = plans_view(plans@);
    let mut r: Vec<Intent> = Vec::new();
    let mut i: usize = 0;
    while i < plans.len()
        invariant
            i <= plans.len(),
            pv == plans_view(plans@),
            forall|a: int, b: int|
                0 <= a < b < r.len() ==> !same_intent(
                    #[trigger] intents_view(r@)[a],
                    #[trigger] intents_view(r@)[b],
                ),
            forall|a: int| 0 <= a < r.len() ==> intent_in_plans(pv, #[trigger] intents_view(r@)[a]),
            forall|i2: int, j2: int|
                0 <= i2 < i && 0 <= j2 < pv[i2].intents.len() ==> covered(
                    intents_view(r@),
                    #[trigger] pv[i2].intents[j2],
                ),
        decreases plans.len() - i,
    {
        let p = &plans[i];
        assert(pv[i as int] == p@);
        let mut j: usize = 0;
        while j < p.intents.len()
            invariant
                i < plans.len(),
                pv == plans_view(plans@),
                pv[i as int] == p@,
                j <= p.intents.len(),
                forall|a: int, b: int|
                    0 <= a < b < r.len() ==> !same_intent(
                        #[trigger] intents_view(r@)[a],
                        #[trigger] intents_view(r@)[b],
                    ),
                forall|a: int|
                    0 <= a < r.len() ==> intent_in_plans(pv, #[trigger] intents_view(r@)[a]),
                forall|i2: int, j2: int|
                    (0 <= i2 < i && 0 <= j2 < pv[i2].intents.len()) || (i2 == i && 0 <= j2 < j)
                        ==> covered(intents_view(r@), #[trigger] pv[i2].intents[j2]),
            decreases p.intents.len() - j,
        {
            let x = &p.intents[j];
            assert(pv[i as int].intents[j as int] == x@);
            let ghost rv = intents_view(r@);
            if !crate::plan::has_same_intent(&r, x) {
                let c = x.copy();
                r.push(c);
                proof {
                    let nv = intents_view(r@);
                    assert(nv =~= rv.push(x@));
                    assert forall|a: int, b: int| 0 <= a < b < nv.len() implies !same_intent(
                        #[trigger] nv[a],
                        #[trigger] nv[b],
                    ) by {
                        if b == rv.len() {
                            assert(nv[a] == rv[a]);
                        } else {
                            assert(nv[a] == rv[a]);
                            assert(nv[b] == rv[b]);
                        }
                    }
                    assert forall|a: int| 0 <= a < nv.len() implies intent_in_plans(
                        pv,
                        #[trigger] nv[a],
                    ) by {
                        if a == rv.len() {
                            assert(same_intent(pv[i as int].intents[j as int], x@));
                        } else {
                            assert(nv[a] == rv[a]);
                        }
                    }
                    assert forall|i2: int, j2: int|
                        (0 <= i2 < i && 0 <= j2 < pv[i2].intents.len()) || (i2 == i && 0 <= j2
                            < j + 1) implies covered(nv, #[trigger] pv[i2].intents[j2]) by {
                        if i2 == i && j2 == j {
                            assert(same_intent(nv[rv.len() as int], pv[i2].intents[j2]));
                        } else {
                            assert(covered(rv, pv[i2].intents[j2]));
                            let a = choose|a: int|
                                0 <= a < rv.len() && same_intent(#[trigger] rv[a], pv[i2].intents[j2]);
                            assert(nv[a] == rv[a]);
                        }
                    }
                }
            } else {
                assert(covered(rv, pv[i as int].intents[j as int]));
            }
            j = j + 1;
        }
        i = i + 1;
    }
    r
}

/// The source of the plan kept by hand.
pub const LOCAL_PLAN_SOURCE: &'static str = "local";

/// The plan of the `local` source, if there is one.
pub fn get_local_plan(plans: &Vec<Plan>) -> (r: Option<Plan>)
    ensures
        r matches Some(p) ==> p@.source == "local"@ && exists|i: int|
            0 <= i < plans.len() && p@ == (#[trigger] plans@[i])@,
        r is None ==> forall|i: int| 0 <= i < plans.len() ==> (#[trigger] plans@[i])@.source != "local"@,
{
    let local = String::from_str(LOCAL_PLAN_SOURCE);
    let mut i: usize = 0;
    while i < plans.len()
        invariant
            i <= plans.len(),
            local@ == "local"@,
            forall|k: int| 0 <= k < i ==> (#[trigger] plans@[k])@.source != "local"@,
        decreases plans.len() - i,
    {
        if plans[i].source == local {
            return Some(plans[i].copy());
        }
        i = i + 1;
    }
    None
}

/// The plan of the `local` source, or an empty one valid from `date`.
pub fn get_local_plan_or_create(plans: &Vec<Plan>, date: Date) -> (r: Plan)
    ensures
        r@.source == "local"@,
        (exists|i: int| 0 <= i < plans.len() && (#[trigger] plans@[i])@.source == "local"@) ==> exists|i: int|
            0 <= i < plans.len() && r@ == (#[trigger] plans@[i])@,
        (forall|i: int| 0 <= i < plans.len() ==> (#[trigger] plans@[i])@.source != "local"@) ==> (
        r@.valid_from == date && r@.valid_until is None && r@.roles.len() == 0 && r@.actions.len()
            == 0 && r@.objectives.len() == 0 && r@.subjects.len() == 0 && r@.trackers.len() == 0
            && r@.intents.len() == 0),
{
    match get_local_plan(plans) {
        Some(p) => p,
        None => Plan::new(
            String::from_str(LOCAL_PLAN_SOURCE),
            date,
            None,
            Vec::new(),
            Vec::new(),
            Vec::new(),
            Vec::new(),
            Vec::new(),
            Vec::new(),
        ),
    }
}

} // verus!
