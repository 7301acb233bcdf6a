use vstd::prelude::*;

use crate::component::Component;

verus! {

/// The background-job component: shows the job-count string when one was
/// given, and nothing otherwise.
pub fn display(jobs: Option<String>) -> (r: Option<Component>)
    ensures
        jobs matches Some(j) ==> r matches Some(f) && f == Component::Computed(j),
        jobs is None ==> r is None,
{
    match jobs {
        Some(jobs) => Some(Component::Computed(jobs)),
        None => None,
    }
}

} // verus!
