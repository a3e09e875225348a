//! The reconciliation engine: decides, from the desired configuration, the
//! validated inputs and the probed service state, which external actions an
//! orchestrator must perform, and mutates and renders the desired
//! configuration accordingly.  The orchestrator performs the actions in
//! plan order: settle the legacy service, issue the switch call, enable the
//! supervising service if asked, persist the document, then relocate it.

use vstd::prelude::*;

use crate::codec::{lines_of, text_of};
use crate::errors::Error;
use crate::loader_defaults::flags_for;
use crate::modes::{convert_from_raw_mode, mode_of_code, SchedMode};
use crate::registry::Registry;
use crate::store::{clone_args, Config, ConfigV};
use crate::text::{check_str_ok, split_char, split_on, str_eq, str_ok, strs_ok};

verus! {

/// What the probes of the two services reported: whether the legacy
/// conflicting service is enabled or active, and whether the supervising
/// service is enabled.
#[derive(Clone, Copy, Debug, PartialEq, Eq, Structural)]
pub struct Probes {
    pub legacy_enabled: bool,
    pub legacy_active: bool,
    pub loader_enabled: bool,
}

/// What to do about the legacy conflicting service, decided before any
/// switch call so the two schedulers never fight for the same kernel hook.
#[derive(Clone, Copy, Debug, PartialEq, Eq, Structural)]
pub enum LegacyAction {
    /// The service is enabled: disable it persistently and stop it now.
    DisableAndStop,
    /// The service is merely active: stop it now.
    Stop,
    /// The service is neither enabled nor active: leave it alone.
    Leave,
}

/// The action the probe results call for.
pub open spec fn legacy_action_of(enabled: bool, active: bool) -> LegacyAction {
    if enabled {
        LegacyAction::DisableAndStop
    } else if active {
        LegacyAction::Stop
    } else {
        LegacyAction::Leave
    }
}

/// Decides what to do about the legacy conflicting service.
pub fn plan_legacy_action(legacy_enabled: bool, legacy_active: bool) -> (r: LegacyAction)
    ensures
        r == legacy_action_of(legacy_enabled, legacy_active),
{
    if legacy_enabled {
        LegacyAction::DisableAndStop
    } else if legacy_active {
        LegacyAction::Stop
    } else {
        LegacyAction::Leave
    }
}

/// The switch call to issue to the remote scheduling service.
#[derive(Debug)]
pub enum SwitchCall {
    /// Switch by scheduler and mode, letting the remote service pick its
    /// own default arguments for the mode.
    ByMode { scx_name: String, mode: SchedMode },
    /// Switch by scheduler and explicit arguments.
    ByArgs { scx_name: String, args: Vec<String> },
}

/// The token sequence a raw flag string denotes: the empty string carries
/// no tokens; anything else is split at each single space.
pub open spec fn tokens_of(s: Seq<char>) -> Seq<Seq<char>> {
    if s.len() == 0 {
        Seq::<Seq<char>>::empty()
    } else {
        split_on(s, ' ')
    }
}

/// Splits a raw flag string into its tokens.
pub fn split_args(extra_flags: &str) -> (r: Vec<String>)
    ensures
        r.deep_view() == tokens_of(extra_flags@),
{
    if extra_flags.is_empty() {
        let r: Vec<String> = Vec::new();
        proof {
            assert(r.deep_view() =~~= tokens_of(extra_flags@));
        }
        r
    } else {
        split_char(extra_flags, ' ')
    }
}

/// Decides whether every token is storable in the document.
pub fn check_strs_ok(v: &Vec<String>) -> (r: bool)
    ensures
        r == strs_ok(v.deep_view()),
{
    let n = v.len();
    let mut i: usize = 0;
    while i < n
        invariant
            i <= n,
            n == v@.len(),
            forall|j: int| 0 <= j < i ==> str_ok(#[trigger] v.deep_view()[j]),
        decreases n - i,
    {
        proof {
            assert(v.deep_view()[i as int] == v@[i as int]@);
        }
        if !check_str_ok(v[i].as_str()) {
            return false;
        }
        i = i + 1;
    }
    proof {
        assert(v.deep_view().len() == v@.len());
    }
    true
}

/// Decides whether two argument lists hold the same tokens in the same
/// order.
pub fn args_equal(a: &Vec<String>, b: &Vec<String>) -> (r: bool)
    ensures
        r == (a.deep_view() == b.deep_view()),
{
    let na = a.len();
    let nb = b.len();
    proof {
        assert(a.deep_view().len() == a@.len());
        assert(b.deep_view().len() == b@.len());
    }
    if na != nb {
        return false;
    }
    let mut i: usize = 0;
    while i < na
        invariant
            i <= na,
            na == a@.len(),
            na == b@.len(),
            a.deep_view().len() == na,
            b.deep_view().len() == na,
            forall|j: int| 0 <= j < i ==> #[trigger] a.deep_view()[j] == b.deep_view()[j],
        decreases na - i,
    {
        proof {
            assert(a.deep_view()[i as int] == a@[i as int]@);
            assert(b.deep_view()[i as int] == b@[i as int]@);
        }
        if !str_eq(a[i].as_str(), b[i].as_str()) {
            return false;
        }
        i = i + 1;
    }
    proof {
        assert(a.deep_view() =~~= b.deep_view());
    }
    true
}

/// The desired configuration after applying `(name, m, tokens)`: the
/// default pair is set to the request, and the tokens are recorded as the
/// override for `(name, m)` exactly when they differ from the argument set
/// previously in force (equality with it means "use the mode default", so
/// no override is stored).
pub open spec fn apply_transition(
    c: ConfigV,
    name: Seq<char>,
    m: SchedMode,
    tokens: Seq<Seq<char>>,
) -> ConfigV {
    let c1 = c.with_default(name, m);
    if tokens == flags_for(c, name, m) {
        c1
    } else {
        c1.with_args(name, m, tokens)
    }
}

/// The full plan of external actions one `apply` asks of the orchestrator.
#[derive(Debug)]
pub struct ApplyPlan {
    /// What to do about the legacy conflicting service, first.
    pub legacy: LegacyAction,
    /// The one switch call to issue to the remote service; its failure is
    /// reported but does not stop the rest of the plan.
    pub switch_call: SwitchCall,
    /// Whether the supervising service must still be enabled persistently.
    pub enable_loader: bool,
    /// The document text to persist and then relocate to the final path.
    pub document: String,
}

/// The plan of external actions one `disable` asks of the orchestrator.
#[derive(Debug)]
pub struct DisablePlan {
    /// The document text to persist and then relocate to the final path.
    pub document: String,
    /// The remote service is told to stop its scheduler, exactly once.
    pub stop_scheduler: bool,
}

impl Config {
    /// Applies a scheduler change to the desired configuration and plans
    /// the external actions.  The scheduler name must be supported and
    /// storable, the mode code must decode, and the flag tokens must be
    /// storable; otherwise nothing changes and the input is refused.  The
    /// switch call is by mode exactly when the tokens equal the argument
    /// set previously in force for the pair, and an override is recorded
    /// exactly when they differ.
    pub fn apply_scheduler_change(
        &mut self,
        registry: &Registry,
        scx_name: &str,
        scx_mode: u32,
        extra_flags: &str,
        probes: Probes,
    ) -> (r: Result<ApplyPlan, Error>)
        requires
            old(self).wf(),
        ensures
            match r {
                Ok(plan) => {
                    &&& registry.contains(scx_name@)
                    &&& str_ok(scx_name@)
                    &&& strs_ok(tokens_of(extra_flags@))
                    &&& mode_of_code(scx_mode) matches Some(m) && {
                        let tokens = tokens_of(extra_flags@);
                        let defaults = flags_for(old(self)@, scx_name@, m);
                        &&& final(self)@ == apply_transition(old(self)@, scx_name@, m, tokens)
                        &&& final(self).wf()
                        &&& plan.legacy == legacy_action_of(
                            probes.legacy_enabled,
                            probes.legacy_active,
                        )
                        &&& plan.enable_loader == !probes.loader_enabled
                        &&& plan.document@ == text_of(lines_of(final(self)@))
                        &&& (tokens == defaults ==> (plan.switch_call matches SwitchCall::ByMode {
                            scx_name: n,
                            mode,
                        } && n@ == scx_name@ && mode == m))
                        &&& (tokens != defaults ==> (plan.switch_call matches SwitchCall::ByArgs {
                            scx_name: n,
                            args,
                        } && n@ == scx_name@ && args.deep_view() == tokens))
                    }
                },
                Err(e) => {
                    &&& e == Error::InvalidInput
                    &&& final(self)@ == old(self)@
                    &&& (!(registry.contains(scx_name@) && str_ok(scx_name@)) || mode_of_code(
                        scx_mode,
                    ) is None || !strs_ok(tokens_of(extra_flags@)))
                },
            },
    {
        let scx_sched = registry.resolve_scheduler(scx_name)?;
        let mode = convert_from_raw_mode(scx_mode)?;
        let default_args = self.flags_for_mode(scx_name, mode);
        let sched_args = split_args(extra_flags);
        if !check_strs_ok(&sched_args) {
            return Err(Error::InvalidInput);
        }
        let legacy = plan_legacy_action(probes.legacy_enabled, probes.legacy_active);
        let equal = args_equal(&sched_args, &default_args);
        let switch_call = if equal {
            SwitchCall::ByMode { scx_name: String::from_str(scx_name), mode }
        } else {
            SwitchCall::ByArgs { scx_name: String::from_str(scx_name), args: clone_args(&sched_args) }
        };
        self.set_scx_sched_with_mode(&scx_sched, mode);
        if !equal {
            self.set_scx_args(&scx_sched, mode, sched_args);
        }
        let document = self.render();
        Ok(ApplyPlan { legacy, switch_call, enable_loader: !probes.loader_enabled, document })
    }

    /// Disables the desired scheduler: clears the default scheduler and
    /// default mode together, renders the document to persist, and plans
    /// one stop call to the remote service.
    pub fn disable_scheduler(&mut self) -> (plan: DisablePlan)
        ensures
            final(self)@ == old(self)@.cleared(),
            old(self).wf() ==> final(self).wf(),
            plan.document@ == text_of(lines_of(old(self)@.cleared())),
            plan.stop_scheduler,
    {
        self.clear_default();
        let document = self.render();
        DisablePlan { document, stop_scheduler: true }
    }
}

/// An applied configuration always carries its default pair, and a
/// disabled one carries neither half: the two defaults are only ever set,
/// and cleared, together.
pub proof fn lemma_default_pairing(c: ConfigV, name: Seq<char>, m: SchedMode, tokens: Seq<Seq<char>>)
    ensures
        apply_transition(c, name, m, tokens).default_sched == Some(name),
        apply_transition(c, name, m, tokens).default_mode == Some(m),
        c.cleared().default_sched is None,
        c.cleared().default_mode is None,
{
}

/// Applying the same change twice yields the same configuration as
/// applying it once: when the tokens differed from the set in force they
/// become the override, so the second application finds them in force and
/// changes nothing more.
pub proof fn lemma_apply_idempotent(
    c: ConfigV,
    name: Seq<char>,
    m: SchedMode,
    tokens: Seq<Seq<char>>,
)
    ensures
        apply_transition(apply_transition(c, name, m, tokens), name, m, tokens)
            == apply_transition(c, name, m, tokens),
{
    let defaults = flags_for(c, name, m);
    let c1 = apply_transition(c, name, m, tokens);
    if tokens == defaults {
        assert(c1.scheds == c.scheds);
        assert(flags_for(c1, name, m) == flags_for(c, name, m));
        assert(c1.with_default(name, m) =~~= c1);
    } else {
        crate::store::lemma_set_args_find(c.scheds, name, m, tokens, name);
        assert(c1.override_for(name, m) == Some(tokens));
        assert(flags_for(c1, name, m) == tokens);
        assert(c1.with_default(name, m) =~~= c1);
    }
}

} // verus!
