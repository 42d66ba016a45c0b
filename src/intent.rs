use vstd::prelude::*;

use crate::text::push_str;
use crate::text::from_chars;

verus! {

pub open spec fn opt_view(o: Option<String>) -> Option<Seq<char>> {
    match o {
        Some(s) => Some(s@),
        None => None,
    }
}

pub open spec fn strings_view(v: Vec<String>) -> Seq<Seq<char>> {
    v@.map_values(|s: String| s@)
}

/// What a session was for.
#[derive(Debug)]
pub struct Intent {
    pub alias: Option<String>,
    pub role: Option<String>,
    pub objective: Option<String>,
    pub action: Option<String>,
    pub subject: Option<String>,
    pub trackers: Vec<String>,
}

pub struct IntentView {
    pub alias: Option<Seq<char>>,
    pub role: Option<Seq<char>>,
    pub objective: Option<Seq<char>>,
    pub action: Option<Seq<char>>,
    pub subject: Option<Seq<char>>,
    pub trackers: Seq<Seq<char>>,
}

impl View for Intent {
    type V = IntentView;

    open spec fn view(&self) -> IntentView {
        IntentView {
            alias: opt_view(self.alias),
            role: opt_view(self.role),
            objective: opt_view(self.objective),
            action: opt_view(self.action),
            subject: opt_view(self.subject),
            trackers: strings_view(self.trackers),
        }
    }
}

pub open spec fn or_empty(o: Option<Seq<char>>) -> Seq<char> {
    match o {
        Some(s) => s,
        None => Seq::empty(),
    }
}

/// The alias given to an intent that has none: `"{role}: {action} to {objective} for {subject}"`.
pub open spec fn default_alias(
    role: Option<Seq<char>>,
    objective: Option<Seq<char>>,
    action: Option<Seq<char>>,
    subject: Option<Seq<char>>,
) -> Seq<char> {
    or_empty(role) + ": "@ + or_empty(action) + " to "@ + or_empty(objective) + " for "@ + or_empty(
        subject,
    )
}

/// What `Intent::new` makes of its arguments: the alias given, or one made
/// from the other fields; the trackers without repeats.
pub open spec fn made_from(
    i: IntentView,
    alias: Option<Seq<char>>,
    role: Option<Seq<char>>,
    objective: Option<Seq<char>>,
    action: Option<Seq<char>>,
    subject: Option<Seq<char>>,
    trackers: Seq<Seq<char>>,
) -> bool {
    &&& i.alias == Some(
        match alias {
            Some(a) => a,
            None => default_alias(role, objective, action, subject),
        },
    )
    &&& i.role == role
    &&& i.objective == objective
    &&& i.action == action
    &&& i.subject == subject
    &&& i.trackers.no_duplicates()
    &&& i.trackers.to_set() == trackers.to_set()
}

/// Two intents are the same when their fields are, trackers taken as a set.
pub open spec fn same_intent(a: IntentView, b: IntentView) -> bool {
    a.alias == b.alias && a.role == b.role && a.objective == b.objective && a.action == b.action
        && a.subject == b.subject && a.trackers.to_set() == b.trackers.to_set()
}

pub fn clone_opt(o: &Option<String>) -> (r: Option<String>)
    ensures
        opt_view(r) == opt_view(*o),
{
    match o {
        Some(s) => Some(s.clone()),
        None => None,
    }
}

pub fn clone_strings(v: &Vec<String>) -> (r: Vec<String>)
    ensures
        strings_view(r) == strings_view(*v),
{
    let mut r: Vec<String> = Vec::new();
    let mut i: usize = 0;
    while i < v.len()
        invariant
            i <= v.len(),
            strings_view(r) == strings_view(*v).subrange(0, i as int),
        decreases v.len() - i,
    {
        let ghost before = r@;
        let c: String = v[i].clone();
        r.push(c);
        assert(c@ == v@[i as int]@);
        assert(r@ == before.push(c));
        assert(strings_view(r) =~= strings_view(*v).subrange(0, i as int).push(c@));
        i = i + 1;
        assert(strings_view(r) =~= strings_view(*v).subrange(0, i as int));
    }
    assert(strings_view(*v).subrange(0, v.len() as int) =~= strings_view(*v));
    r
}

/// Whether `v` holds a string equal to `s`.
pub fn contains_string(v: &Vec<String>, s: &String) -> (r: bool)
    ensures
        r == strings_view(*v).contains(s@),
{
    let mut i: usize = 0;
    while i < v.len()
        invariant
            i <= v.len(),
            forall|j: int| 0 <= j < i ==> strings_view(*v)[j] != s@,
        decreases v.len() - i,
    {
        if v[i] == *s {
            assert(strings_view(*v)[i as int] == s@);
            return true;
        }
        i = i + 1;
    }
    false
}

/// Whether every string of `a` is in `b`.
fn all_contained(a: &Vec<String>, b: &Vec<String>) -> (r: bool)
    ensures
        r == strings_view(*a).to_set().subset_of(strings_view(*b).to_set()),
{
    let mut i: usize = 0;
    while i < a.len()
        invariant
            i <= a.len(),
            forall|j: int| 0 <= j < i ==> strings_view(*b).contains(#[trigger] strings_view(*a)[j]),
        decreases a.len() - i,
    {
        if !contains_string(b, &a[i]) {
            assert(strings_view(*a).to_set().contains(strings_view(*a)[i as int]));
            return false;
        }
        i = i + 1;
    }
    assert forall|x| strings_view(*a).to_set().contains(x) implies strings_view(
        *b,
    ).to_set().contains(x) by {
        let j = choose|j: int| 0 <= j < strings_view(*a).len() && strings_view(*a)[j] == x;
        assert(strings_view(*b).contains(strings_view(*a)[j]));
    }
    true
}

pub fn opt_eq(a: &Option<String>, b: &Option<String>) -> (r: bool)
    ensures
        r == (opt_view(*a) == opt_view(*b)),
{
    match (a, b) {
        (Some(x), Some(y)) => *x == *y,
        (None, None) => true,
        _ => false,
    }
}

fn opt_chars(o: &Option<String>, out: &mut Vec<char>)
    ensures
        final(out)@ == old(out)@ + or_empty(opt_view(*o)),
{
    match o {
        Some(s) => push_str(out, s.as_str()),
        None => {
            assert(old(out)@ + Seq::<char>::empty() =~= old(out)@);
        },
    }
}

impl Intent {
    /// A new intent: trackers lose their repeats (the first of each stays),
    /// and an absent alias is made from the other fields.
    pub fn new(
        alias: Option<String>,
        role: Option<String>,
        objective: Option<String>,
        action: Option<String>,
        subject: Option<String>,
        trackers: Vec<String>,
    ) -> (r: Intent)
        ensures
            made_from(
                r@,
                opt_view(alias),
                opt_view(role),
                opt_view(objective),
                opt_view(action),
                opt_view(subject),
                strings_view(trackers),
            ),
    {
        let mut deduped: Vec<String> = Vec::new();
        let mut i: usize = 0;
        while i < trackers.len()
            invariant
                i <= trackers.len(),
                strings_view(deduped).no_duplicates(),
                strings_view(deduped).to_set() == strings_view(trackers).subrange(
                    0,
                    i as int,
                ).to_set(),
            decreases trackers.len() - i,
        {
            let ghost before = strings_view(deduped);
            let ghost t = strings_view(trackers);
            if !contains_string(&deduped, &trackers[i]) {
                deduped.push(trackers[i].clone());
                assert(strings_view(deduped) =~= before.push(t[i as int]));
            }
            i = i + 1;
            assert(t.subrange(0, i as int) =~= t.subrange(0, i - 1).push(t[i - 1]));
            assert(strings_view(deduped).to_set() =~= t.subrange(0, i as int).to_set()) by {
                t.subrange(0, i - 1).lemma_push_to_set_commute(t[i - 1]);
                before.lemma_push_to_set_commute(t[i - 1]);
                assert(before.push(t[i - 1]).to_set() =~= before.to_set().insert(t[i - 1]));
            }
        }
        assert(strings_view(trackers).subrange(0, trackers.len() as int) =~= strings_view(
            trackers,
        ));
        let alias = match alias {
            Some(a) => Some(a),
            None => {
                let mut out: Vec<char> = Vec::new();
                opt_chars(&role, &mut out);
                push_str(&mut out, ": ");
                opt_chars(&action, &mut out);
                push_str(&mut out, " to ");
                opt_chars(&objective, &mut out);
                push_str(&mut out, " for ");
                opt_chars(&subject, &mut out);
                Some(from_chars(out.as_slice()))
            },
        };
        Intent { alias, role, objective, action, subject, trackers: deduped }
    }

    /// Whether two intents are the same, trackers taken as a set.
    pub fn same_as(&self, o: &Intent) -> (r: bool)
        ensures
            r == same_intent(self@, o@),
    {
        let fields = opt_eq(&self.alias, &o.alias) && opt_eq(&self.role, &o.role) && opt_eq(
            &self.objective,
            &o.objective,
        ) && opt_eq(&self.action, &o.action) && opt_eq(&self.subject, &o.subject);
        if !fields {
            return false;
        }
        let r = all_contained(&self.trackers, &o.trackers) && all_contained(
            &o.trackers,
            &self.trackers,
        );
        proof {
            let a = self@.trackers.to_set();
            let b = o@.trackers.to_set();
            if a.subset_of(b) && b.subset_of(a) {
                assert(a =~= b);
            }
        }
        r
    }

    /// A copy of this intent.
    pub fn copy(&self) -> (r: Intent)
        ensures
            r@ == self@,
    {
        Intent {
            alias: clone_opt(&self.alias),
            role: clone_opt(&self.role),
            objective: clone_opt(&self.objective),
            action: clone_opt(&self.action),
            subject: clone_opt(&self.subject),
            trackers: clone_strings(&self.trackers),
        }
    }
}

impl Clone for Intent {
    fn clone(&self) -> (r: Intent)
        ensures
            r@ == self@,
    {
        self.copy()
    }
}

impl PartialEq for Intent {
    fn eq(&self, o: &Intent) -> (r: bool)
        ensures
            r == same_intent(self@, o@),
    {
        self.same_as(o)
    }
}

impl vstd::std_specs::cmp::PartialEqSpecImpl for Intent {
    open spec fn obeys_eq_spec() -> bool {
        true
    }

    open spec fn eq_spec(&self, o: &Intent) -> bool {
        same_intent(self@, o@)
    }
}

impl Eq for Intent {}

} // verus!
