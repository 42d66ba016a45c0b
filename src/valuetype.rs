use vstd::prelude::*;

use crate::intent::strings_view;

verus! {

/// A field's value in a log: a string or a list of strings.
#[derive(Debug)]
pub enum ValueType {
    String(String),
    List(Vec<String>),
}

pub enum ValueView {
    Str(Seq<char>),
    List(Seq<Seq<char>>),
}

impl View for ValueType {
    type V = ValueView;

    open spec fn view(&self) -> ValueView {
        match self {
            ValueType::String(s) => ValueView::Str(s@),
            ValueType::List(v) => ValueView::List(strings_view(*v)),
        }
    }
}

impl ValueType {
    /// The string, if this is one.
    pub fn as_string(&self) -> (r: Option<&String>)
        ensures
            r matches Some(s) ==> self@ == ValueView::Str(s@),
            r is None ==> self@ is List,
    {
        match self {
            ValueType::String(s) => Some(s),
            _ => None,
        }
    }

    /// The list, if this is one.
    pub fn as_list(&self) -> (r: Option<&Vec<String>>)
        ensures
            r matches Some(v) ==> self@ == ValueView::List(strings_view(*v)),
            r is None ==> self@ is Str,
    {
        match self {
            ValueType::List(v) => Some(v),
            _ => None,
        }
    }
}

impl Clone for ValueType {
    fn clone(&self) -> (r: ValueType)
        ensures
            r@ == self@,
    {
        match self {
            ValueType::String(s) => ValueType::String(s.clone()),
            ValueType::List(v) => ValueType::List(crate::intent::clone_strings(v)),
        }
    }
}

impl PartialEq for ValueType {
    fn eq(&self, o: &ValueType) -> (r: bool)
        ensures
            r == (self@ == o@),
    {
        match (self, o) {
            (ValueType::String(a), ValueType::String(b)) => *a == *b,
            (ValueType::List(a), ValueType::List(b)) => {
                if a.len() != b.len() {
                    assert(strings_view(*a).len() != strings_view(*b).len());
                    return false;
                }
                let mut i: usize = 0;
                while i < a.len()
                    invariant
                        i <= a.len() == b.len(),
                        self@ == ValueView::List(strings_view(*a)),
                        o@ == ValueView::List(strings_view(*b)),
                        forall|j: int| 0 <= j < i ==> a@[j]@ == b@[j]@,
                    decreases a.len() - i,
                {
                    if !(a[i] == b[i]) {
                        assert(strings_view(*a)[i as int] != strings_view(*b)[i as int]);
                        assert(strings_view(*a) != strings_view(*b));
                        return false;
                    }
                    i = i + 1;
                }
                assert(strings_view(*a) =~= strings_view(*b));
                true
            },
            _ => false,
        }
    }
}

impl vstd::std_specs::cmp::PartialEqSpecImpl for ValueType {
    open spec fn obeys_eq_spec() -> bool {
        true
    }

    open spec fn eq_spec(&self, o: &ValueType) -> bool {
        self@ == o@
    }
}

impl Eq for ValueType {}

} // verus!
