//! The scheduler registry: validates a scheduler name against the set of
//! names the remote scheduling service currently advertises as supported.
//! The registry does not define that set; it only checks membership.

use vstd::prelude::*;

use crate::errors::Error;
use crate::text::{check_str_ok, str_eq, str_ok};

verus! {

/// A scheduler name that passed validation.  It round-trips losslessly
/// to and from its canonical string name.
#[derive(Debug)]
pub struct SchedulerId {
    name: String,
}

impl View for SchedulerId {
    type V = Seq<char>;

    closed spec fn view(&self) -> Seq<char> {
        self.name@
    }
}

impl SchedulerId {
    /// The identifier holds only characters the configuration document
    /// can store.
    pub open spec fn wf(&self) -> bool {
        str_ok(self@)
    }

    /// The canonical name of the scheduler.
    pub fn name(&self) -> (r: &str)
        ensures
            r@ == self@,
    {
        self.name.as_str()
    }
}

/// The set of scheduler names the remote service supports, as last advertised.
pub struct Registry {
    names: Vec<String>,
}

impl View for Registry {
    type V = Seq<Seq<char>>;

    closed spec fn view(&self) -> Seq<Seq<char>> {
        self.names.deep_view()
    }
}

impl Registry {
    /// A name is in the registry.
    pub open spec fn contains(&self, name: Seq<char>) -> bool {
        exists|i: int| 0 <= i < self@.len() && #[trigger] self@[i] == name
    }

    /// Builds a registry from the names the remote service advertises.
    pub fn from_names(names: Vec<String>) -> (r: Registry)
        ensures
            r@ == names.deep_view(),
    {
        Registry { names }
    }

    /// Resolves a scheduler name: a supported, storable name yields its
    /// identifier; any other name is invalid input.
    pub fn resolve_scheduler(&self, name: &str) -> (r: Result<SchedulerId, Error>)
        ensures
            match r {
                Ok(id) => self.contains(name@) && str_ok(name@) && id@ == name@ && id.wf(),
                Err(e) => e == Error::InvalidInput && !(self.contains(name@) && str_ok(name@)),
            },
    {
        if !check_str_ok(name) {
            return Err(Error::InvalidInput);
        }
        let n = self.names.len();
        let mut i: usize = 0;
        while i < n
            invariant
                i <= n,
                n == self@.len(),
                self@ == self.names.deep_view(),
                str_ok(name@),
                forall|j: int| 0 <= j < i ==> #[trigger] self@[j] != name@,
            decreases n - i,
        {
            proof {
                assert(self@[i as int] == self.names@[i as int]@);
            }
            if str_eq(self.names[i].as_str(), name) {
                return Ok(SchedulerId { name: self.names[i].clone() });
            }
            i = i + 1;
        }
        Err(Error::InvalidInput)
    }
}

} // verus!
