use vstd::prelude::*;

use crate::codec::labels_view;
use crate::intent::{clone_strings, same_intent, strings_view, Intent, IntentView};
use crate::time::Date;

verus! {

/// Vocabulary, trackers and intent templates of one source, valid over a
/// range of dates.
#[derive(Debug)]
pub struct Plan {
    pub source: String,
    pub valid_from: Date,
    pub valid_until: Option<Date>,
    pub roles: Vec<String>,
    pub actions: Vec<String>,
    pub objectives: Vec<String>,
    pub subjects: Vec<String>,
    /// Tracker ids with their labels.
    pub trackers: Vec<(String, String)>,
    pub intents: Vec<Intent>,
}

pub struct PlanView {
    pub source: Seq<char>,
    pub valid_from: Date,
    pub valid_until: Option<Date>,
    pub roles: Seq<Seq<char>>,
    pub actions: Seq<Seq<char>>,
    pub objectives: Seq<Seq<char>>,
    pub subjects: Seq<Seq<char>>,
    pub trackers: Seq<(Seq<char>, Seq<char>)>,
    pub intents: Seq<IntentView>,
}

pub open spec fn intents_view(v: Seq<Intent>) -> Seq<IntentView> {
    v.map_values(|i: Intent| i@)
}

impl View for Plan {
    type V = PlanView;

    open spec fn view(&self) -> PlanView {
        PlanView {
            source: self.source@,
            valid_from: self.valid_from,
            valid_until: self.valid_until,
            roles: strings_view(self.roles),
            actions: strings_view(self.actions),
            objectives: strings_view(self.objectives),
            subjects: strings_view(self.subjects),
            trackers: labels_view(self.trackers@),
            intents: intents_view(self.intents@),
        }
    }
}

impl PlanView {
    /// Valid on `d`: from `valid_from`, up to `valid_until` if there is one.
    pub open spec fn valid_on(self, d: Date) -> bool {
        self.valid_from.key() <= d.key() && (self.valid_until matches Some(u) ==> d.key()
            <= u.key())
    }

    pub open spec fn wf(self) -> bool {
        self.valid_from.wf() && (self.valid_until matches Some(u) ==> u.wf())
    }
}

/// What `slug::slugify` makes of a source name.
pub uninterp spec fn slug_of(s: Seq<char>) -> Seq<char>;

/// Relies on `slug::slugify`: the slug depends on the text alone.
#[verifier::external_body]
fn slugify(s: &str) -> (r: String)
    ensures
        r@ == slug_of(s@),
{
    slug::slugify(s)
}

pub fn clone_pairs(v: &Vec<(String, String)>) -> (r: Vec<(String, String)>)
    ensures
        labels_view(r@) == labels_view(v@),
{
    let mut r: Vec<(String, String)> = Vec::new();
    let mut i: usize = 0;
    while i < v.len()
        invariant
            i <= v.len(),
            labels_view(r@) == labels_view(v@).subrange(0, i as int),
        decreases v.len() - i,
    {
        let ghost before = labels_view(r@);
        let p = (v[i].0.clone(), v[i].1.clone());
        r.push(p);
        assert(labels_view(r@) =~= before.push((p.0@, p.1@)));
        i = i + 1;
        assert(labels_view(r@) =~= labels_view(v@).subrange(0, i as int));
    }
    assert(labels_view(v@).subrange(0, v.len() as int) =~= labels_view(v@));
    r
}

pub fn clone_intents(v: &Vec<Intent>) -> (r: Vec<Intent>)
    ensures
        intents_view(r@) == intents_view(v@),
{
    let mut r: Vec<Intent> = Vec::new();
    let mut i: usize = 0;
    while i < v.len()
        invariant
            i <= v.len(),
            intents_view(r@) == intents_view(v@).subrange(0, i as int),
        decreases v.len() - i,
    {
        let ghost before = intents_view(r@);
        let c = v[i].copy();
        r.push(c);
        assert(intents_view(r@) =~= before.push(c@));
        i = i + 1;
        assert(intents_view(r@) =~= intents_view(v@).subrange(0, i as int));
    }
    assert(intents_view(v@).subrange(0, v.len() as int) =~= intents_view(v@));
    r
}

/// Whether some intent of `v` is the same as `x`.
pub fn has_same_intent(v: &Vec<Intent>, x: &Intent) -> (r: bool)
    ensures
        r == exists|j: int| 0 <= j < v.len() && same_intent(#[trigger] intents_view(v@)[j], x@),
{
    let mut i: usize = 0;
    while i < v.len()
        invariant
            i <= v.len(),
            forall|j: int| 0 <= j < i ==> !same_intent(#[trigger] intents_view(v@)[j], x@),
        decreases v.len() - i,
    {
        if v[i].same_as(x) {
            assert(same_intent(intents_view(v@)[i as int], x@));
            return true;
        }
        i = i + 1;
    }
    false
}

impl Plan {
    pub fn new(
        source: String,
        valid_from: Date,
        valid_until: Option<Date>,
        roles: Vec<String>,
        actions: Vec<String>,
        objectives: Vec<String>,
        subjects: Vec<String>,
        trackers: Vec<(String, String)>,
        intents: Vec<Intent>,
    ) -> (r: Plan)
        ensures
            r@ == (PlanView {
                source: source@,
                valid_from,
                valid_until,
                roles: strings_view(roles),
                actions: strings_view(actions),
                objectives: strings_view(objectives),
                subjects: strings_view(subjects),
                trackers: labels_view(trackers@),
                intents: intents_view(intents@),
            }),
    {
        Plan {
            source,
            valid_from,
            valid_until,
            roles,
            actions,
            objectives,
            subjects,
            trackers,
            intents,
        }
    }

    /// A slug of the source, to name the plan by.
    pub fn id(&self) -> (r: String)
        ensures
            r@ == slug_of(self.source@),
    {
        slugify(self.source.as_str())
    }

    /// Whether the plan is valid on `date`.
    pub fn is_valid_on(&self, date: &Date) -> (r: bool)
        requires
            self@.wf(),
            date.wf(),
        ensures
            r == self@.valid_on(*date),
    {
        if !self.valid_from.is_on_or_before(date) {
            return false;
        }
        match &self.valid_until {
            Some(u) => date.is_on_or_before(u),
            None => true,
        }
    }

    /// A copy of this plan.
    pub fn copy(&self) -> (r: Plan)
        ensures
            r@ == self@,
    {
        Plan {
            source: self.source.clone(),
            valid_from: self.valid_from,
            valid_until: self.valid_until,
            roles: clone_strings(&self.roles),
            actions: clone_strings(&self.actions),
            objectives: clone_strings(&self.objectives),
            subjects: clone_strings(&self.subjects),
            trackers: clone_pairs(&self.trackers),
            intents: clone_intents(&self.intents),
        }
    }

    /// A copy of this plan with `intent` added, unless it holds the same
    /// intent already. This plan is left as it is.
    pub fn add_intent(&self, intent: Intent) -> (r: Plan)
        ensures
            r@ == (PlanView {
                intents: if exists|j: int|
                    0 <= j < self@.intents.len() && same_intent(
                        #[trigger] self@.intents[j],
                        intent@,
                    ) {
                    self@.intents
                } else {
                    self@.intents.push(intent@)
                },
                ..self@
            }),
    {
        let mut intents = clone_intents(&self.intents);
        if !has_same_intent(&intents, &intent) {
            let ghost before = intents_view(intents@);
            let ghost iv = intent@;
            intents.push(intent);
            assert(intents_view(intents@) =~= before.push(iv));
        }
        Plan {
            source: self.source.clone(),
            valid_from: self.valid_from,
            valid_until: self.valid_until,
            roles: clone_strings(&self.roles),
            actions: clone_strings(&self.actions),
            objectives: clone_strings(&self.objectives),
            subjects: clone_strings(&self.subjects),
            trackers: clone_pairs(&self.trackers),
            intents,
        }
    }
}

/// Two plans are the same when their fields are, intents compared one by one
/// as intents are.
pub open spec fn same_plan(a: PlanView, b: PlanView) -> bool {
    &&& a.source == b.source
    &&& a.valid_from == b.valid_from
    &&& a.valid_until == b.valid_until
    &&& a.roles == b.roles
    &&& a.actions == b.actions
    &&& a.objectives == b.objectives
    &&& a.subjects == b.subjects
    &&& a.trackers == b.trackers
    &&& a.intents.len() == b.intents.len()
    &&& forall|i: int| 0 <= i < a.intents.len() ==> same_intent(#[trigger] a.intents[i], b.intents[i])
}

fn same_strings(a: &Vec<String>, b: &Vec<String>) -> (r: bool)
    ensures
        r == (strings_view(*a) == strings_view(*b)),
{
    if a.len() != b.len() {
        assert(strings_view(*a).len() != strings_view(*b).len());
        return false;
    }
    let mut i: usize = 0;
    while i < a.len()
        invariant
            i <= a.len() == b.len(),
            forall|j: int| 0 <= j < i ==> a@[j]@ == b@[j]@,
        decreases a.len() - i,
    {
        if !(a[i] == b[i]) {
            assert(strings_view(*a)[i as int] != strings_view(*b)[i as int]);
            return false;
        }
        i = i + 1;
    }
    assert(strings_view(*a) =~= strings_view(*b));
    true
}

fn same_pairs(a: &Vec<(String, String)>, b: &Vec<(String, String)>) -> (r: bool)
    ensures
        r == (labels_view(a@) == labels_view(b@)),
{
    if a.len() != b.len() {
        assert(labels_view(a@).len() != labels_view(b@).len());
        return false;
    }
    let mut i: usize = 0;
    while i < a.len()
        invariant
            i <= a.len() == b.len(),
            forall|j: int| 0 <= j < i ==> a@[j].0@ == b@[j].0@ && a@[j].1@ == b@[j].1@,
        decreases a.len() - i,
    {
        if !(a[i].0 == b[i].0) || !(a[i].1 == b[i].1) {
            assert(labels_view(a@)[i as int] != labels_view(b@)[i as int]);
            return false;
        }
        i = i + 1;
    }
    assert(labels_view(a@) =~= labels_view(b@));
    true
}

impl PartialEq for Plan {
    fn eq(&self, o: &Plan) -> (r: bool)
        ensures
            r == same_plan(self@, o@),
    {
        if !(self.source == o.source) || self.valid_from != o.valid_from || self.valid_until
            != o.valid_until || !same_strings(&self.roles, &o.roles) || !same_strings(
            &self.actions,
            &o.actions,
        ) || !same_strings(&self.objectives, &o.objectives) || !same_strings(
            &self.subjects,
            &o.subjects,
        ) || !same_pairs(&self.trackers, &o.trackers) || self.intents.len() != o.intents.len() {
            return false;
        }
        let mut i: usize = 0;
        while i < self.intents.len()
            invariant
                i <= self.intents.len() == o.intents.len(),
                self@.source == o@.source && self@.valid_from == o@.valid_from
                    && self@.valid_until == o@.valid_until && self@.roles == o@.roles
                    && self@.actions == o@.actions && self@.objectives == o@.objectives
                    && self@.subjects == o@.subjects && self@.trackers == o@.trackers,
                forall|j: int| 0 <= j < i ==> same_intent(#[trigger] self@.intents[j], o@.intents[j]),
            decreases self.intents.len() - i,
        {
            assert(self@.intents[i as int] == self.intents@[i as int]@);
            assert(o@.intents[i as int] == o.intents@[i as int]@);
            if !self.intents[i].same_as(&o.intents[i]) {
                return false;
            }
            i = i + 1;
        }
        true
    }
}

impl vstd::std_specs::cmp::PartialEqSpecImpl for Plan {
    open spec fn obeys_eq_spec() -> bool {
        true
    }

    open spec fn eq_spec(&self, o: &Plan) -> bool {
        same_plan(self@, o@)
    }
}

impl Clone for Plan {
    fn clone(&self) -> (r: Plan)
        ensures
            r@ == self@,
    {
        self.copy()
    }
}

} // verus!
