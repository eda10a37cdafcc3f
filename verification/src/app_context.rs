//! The client-side application context: what the browser client keeps
//! between pages — the participant's chosen name.

use vstd::prelude::*;

verus! {

/// The participant's settings, shared across the client's views.
#[derive(Debug)]
pub struct AppContext {
    /// The chosen display name, if one was entered.
    pub name: Option<String>,
}

impl AppContext {
    /// Name of the participant.
    pub fn name(&self) -> (r: &Option<String>)
        ensures
            *r == self.name,
    {
        &self.name
    }

    /// Name of the participant (mutable).
    pub fn name_mut(&mut self) -> (r: &mut Option<String>)
        ensures
            *r == old(self).name,
            final(self).name == *final(r),
    {
        &mut self.name
    }
}

impl Default for AppContext {
    /// A context with no name chosen yet.
    fn default() -> (r: AppContext)
        ensures
            r.name is None,
    {
        AppContext { name: None }
    }
}

} // verus!
