use vstd::prelude::*;

use crate::intent::strings_view;

verus! {

/// Terms a new plan starts with.
#[derive(Debug)]
pub struct PlanDefaults {
    pub roles: Vec<String>,
    pub objectives: Vec<String>,
    pub actions: Vec<String>,
}

impl PlanDefaults {
    /// Defaults with no terms.
    pub fn empty() -> (r: PlanDefaults)
        ensures
            r.roles@.len() == 0 && r.objectives@.len() == 0 && r.actions@.len() == 0,
    {
        PlanDefaults { roles: Vec::new(), objectives: Vec::new(), actions: Vec::new() }
    }
}

impl Default for PlanDefaults {
    fn default() -> (r: PlanDefaults)
        ensures
            strings_view(r.roles).len() == 0 && strings_view(r.objectives).len() == 0
                && strings_view(r.actions).len() == 0,
    {
        PlanDefaults::empty()
    }
}

} // verus!
