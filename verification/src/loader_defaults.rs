//! The built-in argument sets the scheduler loader documents for each
//! scheduler and mode.  The table lives in the loader crate; this module
//! reaches it through one trusted wrapper and gives its result a name that
//! the rest of the library's contracts speak of.

use vstd::prelude::*;

use crate::errors::Error;
use crate::modes::{code_of, convert_from_raw_mode, mode_of_code, SchedMode};
use crate::registry::Registry;
use crate::store::{
    clone_args, entry_mode_args, find_entry, lemma_find_entry_absent, lemma_find_entry_first_at,
    Config, ConfigV,
};
use crate::text::{str_eq, str_ok};

verus! {

/// The argument set the scheduler loader's built-in table holds for the
/// scheduler with this name in the mode with this code; a name the loader
/// does not know, or a mode it has no flags for, yields the empty set.
pub uninterp spec fn builtin_flags_of(name: Seq<char>, mode_code: int) -> Seq<Seq<char>>;

/// Relies on scx_loader::config::get_scx_flags_for_mode, called with an
/// empty configuration so that it falls back to the loader's built-in
/// per-scheduler flag table, and on the FromStr impl of
/// scx_loader::SupportedSched to select the scheduler; both depend on their
/// arguments alone, and a name the loader does not recognize has no
/// built-in flags.
#[verifier::external_body]
fn loader_builtin_flags(name: &str, mode: SchedMode) -> (r: Vec<String>)
    ensures
        r.deep_view() == builtin_flags_of(name@, code_of(mode) as int),
{
    let loader_mode = match mode {
        SchedMode::Auto => scx_loader::SchedMode::Auto,
        SchedMode::Gaming => scx_loader::SchedMode::Gaming,
        SchedMode::PowerSave => scx_loader::SchedMode::PowerSave,
        SchedMode::LowLatency => scx_loader::SchedMode::LowLatency,
        SchedMode::Server => scx_loader::SchedMode::Server,
    };
    match name.parse::<scx_loader::SupportedSched>() {
        Ok(s) => {
            let empty = scx_loader::config::Config::default();
            scx_loader::config::get_scx_flags_for_mode(&empty, &s, loader_mode)
        },
        Err(_) => Vec::new(),
    }
}

/// The argument set in force for `(name, m)` under configuration `c`: the
/// stored override when one exists, else the loader's built-in set.
pub open spec fn flags_for(c: ConfigV, name: Seq<char>, m: SchedMode) -> Seq<Seq<char>> {
    match c.override_for(name, m) {
        Some(a) => a,
        None => builtin_flags_of(name, code_of(m) as int),
    }
}

impl Config {
    /// The flags that would apply for the scheduler in the mode: the stored
    /// override when one exists, else the loader's built-in default.  An
    /// unsupported name or mode code is invalid input.
    pub fn get_scx_flags_for_mode(
        &self,
        registry: &Registry,
        supported_sched: &str,
        sched_mode: u32,
    ) -> (r: Result<Vec<String>, Error>)
        requires
            self.wf(),
        ensures
            match r {
                Ok(v) => {
                    &&& registry.contains(supported_sched@)
                    &&& str_ok(supported_sched@)
                    &&& mode_of_code(sched_mode) matches Some(m) && v.deep_view() == flags_for(
                        self@,
                        supported_sched@,
                        m,
                    )
                },
                Err(e) => {
                    &&& e == Error::InvalidInput
                    &&& (!(registry.contains(supported_sched@) && str_ok(supported_sched@))
                        || mode_of_code(sched_mode) is None)
                },
            },
    {
        let scx_sched = registry.resolve_scheduler(supported_sched)?;
        let mode = convert_from_raw_mode(sched_mode)?;
        Ok(self.flags_for_mode(supported_sched, mode))
    }

    /// The flags in force for `(name, m)`: the stored override when one
    /// exists, else the loader's built-in default for the mode.
    pub fn flags_for_mode(&self, name: &str, mode: SchedMode) -> (r: Vec<String>)
        requires
            self.wf(),
        ensures
            r.deep_view() == flags_for(self@, name@, mode),
    {
        let n = self.scheds.len();
        let mut i: usize = 0;
        while i < n
            invariant
                i <= n,
                n == self.scheds@.len(),
                forall|j: int| 0 <= j < i ==> #[trigger] self@.scheds[j].name != name@,
            decreases n - i,
        {
            proof {
                assert(self@.scheds[i as int] == self.scheds@[i as int]@);
            }
            if str_eq(self.scheds[i].name.as_str(), name) {
                proof {
                    lemma_find_entry_first_at(self@.scheds, name@, i as int);
                }
                let entry = &self.scheds[i];
                let stored = match mode {
                    SchedMode::Auto => &entry.auto_mode,
                    SchedMode::Gaming => &entry.gaming_mode,
                    SchedMode::LowLatency => &entry.lowlatency_mode,
                    SchedMode::PowerSave => &entry.powersave_mode,
                    SchedMode::Server => &entry.server_mode,
                };
                match stored {
                    Some(args) => {
                        let r = clone_args(args);
                        proof {
                            assert(entry_mode_args(self@.scheds[i as int], mode) matches Some(a)
                                && a == r.deep_view());
                        }
                        return r;
                    },
                    None => {
                        proof {
                            assert(entry_mode_args(self@.scheds[i as int], mode) is None);
                        }
                        return loader_builtin_flags(name, mode);
                    },
                }
            }
            i = i + 1;
        }
        proof {
            lemma_find_entry_absent(self@.scheds, name@);
        }
        loader_builtin_flags(name, mode)
    }
}

} // verus!
