//! The configuration store: the in-memory desired scheduler state and the
//! operations that mutate it.  The persisted document is rendered from and
//! parsed back into this state by `codec`.

use vstd::prelude::*;

use crate::modes::SchedMode;
use crate::registry::SchedulerId;
use crate::text::{str_ok, strs_ok};

verus! {

/// The per-scheduler record: an optional argument-set override for each of
/// the five modes.  An absent set means "use the scheduler's built-in
/// default for that mode".
#[derive(Debug)]
pub struct SchedEntry {
    pub name: String,
    pub auto_mode: Option<Vec<String>>,
    pub gaming_mode: Option<Vec<String>>,
    pub lowlatency_mode: Option<Vec<String>>,
    pub powersave_mode: Option<Vec<String>>,
    pub server_mode: Option<Vec<String>>,
}

/// The mathematical value of a per-scheduler record.
#[verifier::ext_equal]
pub ghost struct EntryV {
    pub name: Seq<char>,
    pub auto_mode: Option<Seq<Seq<char>>>,
    pub gaming_mode: Option<Seq<Seq<char>>>,
    pub lowlatency_mode: Option<Seq<Seq<char>>>,
    pub powersave_mode: Option<Seq<Seq<char>>>,
    pub server_mode: Option<Seq<Seq<char>>>,
}

impl View for SchedEntry {
    type V = EntryV;

    open spec fn view(&self) -> EntryV {
        EntryV {
            name: self.name@,
            auto_mode: match self.auto_mode {
                Some(v) => Some(v.deep_view()),
                None => None,
            },
            gaming_mode: match self.gaming_mode {
                Some(v) => Some(v.deep_view()),
                None => None,
            },
            lowlatency_mode: match self.lowlatency_mode {
                Some(v) => Some(v.deep_view()),
                None => None,
            },
            powersave_mode: match self.powersave_mode {
                Some(v) => Some(v.deep_view()),
                None => None,
            },
            server_mode: match self.server_mode {
                Some(v) => Some(v.deep_view()),
                None => None,
            },
        }
    }
}

/// The argument set the record holds for a mode, if any.
pub open spec fn entry_mode_args(e: EntryV, m: SchedMode) -> Option<Seq<Seq<char>>> {
    match m {
        SchedMode::Auto => e.auto_mode,
        SchedMode::Gaming => e.gaming_mode,
        SchedMode::LowLatency => e.lowlatency_mode,
        SchedMode::PowerSave => e.powersave_mode,
        SchedMode::Server => e.server_mode,
    }
}

/// Every string of the record is storable in the document.
pub open spec fn entry_wf(e: EntryV) -> bool {
    &&& str_ok(e.name)
    &&& (e.auto_mode matches Some(a) ==> strs_ok(a))
    &&& (e.gaming_mode matches Some(a) ==> strs_ok(a))
    &&& (e.lowlatency_mode matches Some(a) ==> strs_ok(a))
    &&& (e.powersave_mode matches Some(a) ==> strs_ok(a))
    &&& (e.server_mode matches Some(a) ==> strs_ok(a))
}

/// A record with the given argument set stored for the given mode and the
/// other modes unchanged.
pub open spec fn entry_with_args(e: EntryV, m: SchedMode, args: Seq<Seq<char>>) -> EntryV {
    match m {
        SchedMode::Auto => EntryV { auto_mode: Some(args), ..e },
        SchedMode::Gaming => EntryV { gaming_mode: Some(args), ..e },
        SchedMode::LowLatency => EntryV { lowlatency_mode: Some(args), ..e },
        SchedMode::PowerSave => EntryV { powersave_mode: Some(args), ..e },
        SchedMode::Server => EntryV { server_mode: Some(args), ..e },
    }
}

/// A fresh record holding only the given argument set.
pub open spec fn new_entry(name: Seq<char>, m: SchedMode, args: Seq<Seq<char>>) -> EntryV {
    entry_with_args(
        EntryV {
            name: name,
            auto_mode: None,
            gaming_mode: None,
            lowlatency_mode: None,
            powersave_mode: None,
            server_mode: None,
        },
        m,
        args,
    )
}

/// The first record with the given scheduler name, if any.
pub open spec fn find_entry(s: Seq<EntryV>, name: Seq<char>) -> Option<EntryV>
    decreases s.len(),
{
    if s.len() == 0 {
        None
    } else if s[0].name == name {
        Some(s[0])
    } else {
        find_entry(s.skip(1), name)
    }
}

/// The record list with `args` stored for `(name, m)`: the first record of
/// that name is updated in place, or a fresh record is appended.
pub open spec fn set_args_entries(
    s: Seq<EntryV>,
    name: Seq<char>,
    m: SchedMode,
    args: Seq<Seq<char>>,
) -> Seq<EntryV>
    decreases s.len(),
{
    if s.len() == 0 {
        seq![new_entry(name, m, args)]
    } else if s[0].name == name {
        seq![entry_with_args(s[0], m, args)] + s.skip(1)
    } else {
        seq![s[0]] + set_args_entries(s.skip(1), name, m, args)
    }
}

/// The mathematical value of the desired configuration.
#[verifier::ext_equal]
pub ghost struct ConfigV {
    pub default_sched: Option<Seq<char>>,
    pub default_mode: Option<SchedMode>,
    pub scheds: Seq<EntryV>,
}

impl ConfigV {
    /// Scheduler names are unique, every stored string is storable, and a
    /// default scheduler is never recorded without a default mode.
    pub open spec fn wf(self) -> bool {
        &&& (self.default_sched matches Some(n) ==> str_ok(n))
        &&& (self.default_sched is Some ==> self.default_mode is Some)
        &&& (forall|i: int| 0 <= i < self.scheds.len() ==> entry_wf(#[trigger] self.scheds[i]))
        &&& (forall|i: int, j: int|
            0 <= i < j < self.scheds.len() ==> self.scheds[i].name != self.scheds[j].name)
    }

    /// The stored override for `(name, m)`, if any.
    pub open spec fn override_for(self, name: Seq<char>, m: SchedMode) -> Option<Seq<Seq<char>>> {
        match find_entry(self.scheds, name) {
            Some(e) => entry_mode_args(e, m),
            None => None,
        }
    }

    /// The configuration with the default pair set to `(name, m)`.
    pub open spec fn with_default(self, name: Seq<char>, m: SchedMode) -> ConfigV {
        ConfigV { default_sched: Some(name), default_mode: Some(m), ..self }
    }

    /// The configuration with both defaults cleared.
    pub open spec fn cleared(self) -> ConfigV {
        ConfigV { default_sched: None, default_mode: None, ..self }
    }

    /// The configuration with `args` stored as the override for `(name, m)`.
    pub open spec fn with_args(self, name: Seq<char>, m: SchedMode, args: Seq<Seq<char>>) -> ConfigV {
        ConfigV { scheds: set_args_entries(self.scheds, name, m, args), ..self }
    }
}

/// The desired configuration: the default scheduler and mode pair, and the
/// per-scheduler overrides, in the order the document lists them.
#[derive(Debug)]
pub struct Config {
    pub default_sched: Option<String>,
    pub default_mode: Option<SchedMode>,
    pub scheds: Vec<SchedEntry>,
}

impl View for Config {
    type V = ConfigV;

    open spec fn view(&self) -> ConfigV {
        ConfigV {
            default_sched: match self.default_sched {
                Some(s) => Some(s@),
                None => None,
            },
            default_mode: self.default_mode,
            scheds: self.scheds@.map_values(|e: SchedEntry| e@),
        }
    }
}

/// Storing an argument set never changes the record's name.
pub proof fn lemma_entry_with_args_name(e: EntryV, m: SchedMode, args: Seq<Seq<char>>)
    ensures
        entry_with_args(e, m, args).name == e.name,
        entry_mode_args(entry_with_args(e, m, args), m) == Some(args),
        entry_wf(e) && strs_ok(args) ==> entry_wf(entry_with_args(e, m, args)),
{
    match m {
        SchedMode::Auto => {},
        SchedMode::Gaming => {},
        SchedMode::LowLatency => {},
        SchedMode::PowerSave => {},
        SchedMode::Server => {},
    }
}

/// Looking a name up in records updated by `set_args_entries` finds the new
/// argument set under that name and is unchanged under any other.
pub proof fn lemma_set_args_find(
    s: Seq<EntryV>,
    name: Seq<char>,
    m: SchedMode,
    args: Seq<Seq<char>>,
    other: Seq<char>,
)
    ensures
        find_entry(set_args_entries(s, name, m, args), name) matches Some(e) && entry_mode_args(
            e,
            m,
        ) == Some(args),
        other != name ==> find_entry(set_args_entries(s, name, m, args), other) == find_entry(
            s,
            other,
        ),
        find_entry(set_args_entries(s, name, m, args), other) matches Some(e2) ==> e2.name == other,
    decreases s.len(),
{
    lemma_find_entry_name(s, other);
    let t = set_args_entries(s, name, m, args);
    if s.len() == 0 {
        lemma_entry_with_args_name(
            EntryV {
                name: name,
                auto_mode: None,
                gaming_mode: None,
                lowlatency_mode: None,
                powersave_mode: None,
                server_mode: None,
            },
            m,
            args,
        );
        assert(t == seq![new_entry(name, m, args)]);
        assert(t[0].name == name);
        assert(t.skip(1) =~= Seq::<EntryV>::empty());
    } else if s[0].name == name {
        lemma_entry_with_args_name(s[0], m, args);
        assert(t[0].name == name);
        assert(t.skip(1) =~= s.skip(1));
        lemma_find_entry_name(s.skip(1), other);
        if other != name {
            assert(find_entry(t, other) == find_entry(t.skip(1), other));
            assert(find_entry(s, other) == find_entry(s.skip(1), other));
        }
    } else {
        lemma_set_args_find(s.skip(1), name, m, args, other);
        assert(t[0] == s[0]);
        assert(t.skip(1) =~= set_args_entries(s.skip(1), name, m, args));
    }
    lemma_find_entry_name(t, other);
}

/// A found record carries the name it was found under.
pub proof fn lemma_find_entry_name(s: Seq<EntryV>, name: Seq<char>)
    ensures
        find_entry(s, name) matches Some(e) ==> e.name == name,
    decreases s.len(),
{
    if s.len() > 0 && s[0].name != name {
        lemma_find_entry_name(s.skip(1), name);
    }
}

/// `set_args_entries` preserves well-formedness of the record list, given a
/// storable name and argument set.
pub proof fn lemma_set_args_wf(s: Seq<EntryV>, name: Seq<char>, m: SchedMode, args: Seq<Seq<char>>)
    requires
        forall|i: int| 0 <= i < s.len() ==> entry_wf(#[trigger] s[i]),
        forall|i: int, j: int| 0 <= i < j < s.len() ==> s[i].name != s[j].name,
        str_ok(name),
        strs_ok(args),
    ensures
        forall|i: int|
            0 <= i < set_args_entries(s, name, m, args).len() ==> entry_wf(
                #[trigger] set_args_entries(s, name, m, args)[i],
            ),
        forall|i: int, j: int|
            0 <= i < j < set_args_entries(s, name, m, args).len() ==> set_args_entries(
                s,
                name,
                m,
                args,
            )[i].name != set_args_entries(s, name, m, args)[j].name,
        set_args_entries(s, name, m, args)[0].name == if s.len() == 0 {
            name
        } else {
            s[0].name
        },
        forall|i: int|
            0 <= i < set_args_entries(s, name, m, args).len() ==> (#[trigger] set_args_entries(
                s,
                name,
                m,
                args,
            )[i].name == name || exists|j: int| 0 <= j < s.len() && s[j].name == set_args_entries(
                s,
                name,
                m,
                args,
            )[i].name),
    decreases s.len(),
{
    let t = set_args_entries(s, name, m, args);
    if s.len() == 0 {
        lemma_entry_with_args_name(
            EntryV {
                name: name,
                auto_mode: None,
                gaming_mode: None,
                lowlatency_mode: None,
                powersave_mode: None,
                server_mode: None,
            },
            m,
            args,
        );
    } else if s[0].name == name {
        lemma_entry_with_args_name(s[0], m, args);
        assert(t.skip(1) =~= s.skip(1));
        assert(forall|i: int| 1 <= i < t.len() ==> t[i] == s[i]);
    } else {
        assert(forall|i: int|
            0 <= i < s.skip(1).len() ==> entry_wf(#[trigger] s.skip(1)[i]) && s.skip(1)[i]
                == s[i + 1]);
        lemma_set_args_wf(s.skip(1), name, m, args);
        assert(t.skip(1) =~= set_args_entries(s.skip(1), name, m, args));
        assert(forall|i: int| 1 <= i < t.len() ==> t[i] == t.skip(1)[i - 1]);
    }
}

impl Config {
    /// The store is well formed.
    pub open spec fn wf(&self) -> bool {
        self@.wf()
    }

    /// The built-in default configuration: no default scheduler, the
    /// automatic mode, and no per-scheduler records.
    pub fn default_config() -> (r: Config)
        ensures
            r@ == (ConfigV {
                default_sched: None,
                default_mode: Some(SchedMode::Auto),
                scheds: Seq::<EntryV>::empty(),
            }),
            r.wf(),
    {
        let r = Config { default_sched: None, default_mode: Some(SchedMode::Auto), scheds: Vec::new() };
        proof {
            assert(r@.scheds =~= Seq::<EntryV>::empty());
            assert(r@ =~~= ConfigV {
                default_sched: None,
                default_mode: Some(SchedMode::Auto),
                scheds: Seq::<EntryV>::empty(),
            });
        }
        r
    }

    /// Sets the default scheduler together with its default mode: the two
    /// are only ever set as a pair.
    pub fn set_scx_sched_with_mode(&mut self, scx_sched: &SchedulerId, sched_mode: SchedMode)
        ensures
            final(self)@ == old(self)@.with_default(scx_sched@, sched_mode),
            old(self).wf() && scx_sched.wf() ==> final(self).wf(),
    {
        self.default_sched = Some(String::from_str(scx_sched.name()));
        self.default_mode = Some(sched_mode);
        proof {
            assert(self@ =~~= old(self)@.with_default(scx_sched@, sched_mode));
        }
    }

    /// Clears the default scheduler and default mode together.
    pub fn clear_default(&mut self)
        ensures
            final(self)@ == old(self)@.cleared(),
            old(self).wf() ==> final(self).wf(),
    {
        self.default_sched = None;
        self.default_mode = None;
        proof {
            assert(self@ =~~= old(self)@.cleared());
        }
    }

    /// Stores `sched_args` as the override for the scheduler and mode: the
    /// first record with that name is updated, or a record is appended.
    pub fn set_scx_args(&mut self, scx_sched: &SchedulerId, sched_mode: SchedMode, sched_args: Vec<String>)
        requires
            old(self).wf(),
            scx_sched.wf(),
            strs_ok(sched_args.deep_view()),
        ensures
            final(self)@ == old(self)@.with_args(scx_sched@, sched_mode, sched_args.deep_view()),
            final(self).wf(),
    {
        let ghost orig = self@.scheds;
        let n = self.scheds.len();
        let mut i: usize = 0;
        while i < n
            invariant
                i <= n,
                n == self.scheds@.len(),
                self@.scheds == orig,
                *self == *old(self),
                old(self).wf(),
                scx_sched.wf(),
                strs_ok(sched_args.deep_view()),
                orig == old(self)@.scheds,
                forall|j: int| 0 <= j < i ==> #[trigger] orig[j].name != scx_sched@,
            decreases n - i,
        {
            if crate::text::str_eq(self.scheds[i].name.as_str(), scx_sched.name()) {
                let mut entry = self.scheds.remove(i);
                match sched_mode {
                    SchedMode::Auto => {
                        entry.auto_mode = Some(sched_args);
                    },
                    SchedMode::Gaming => {
                        entry.gaming_mode = Some(sched_args);
                    },
                    SchedMode::LowLatency => {
                        entry.lowlatency_mode = Some(sched_args);
                    },
                    SchedMode::PowerSave => {
                        entry.powersave_mode = Some(sched_args);
                    },
                    SchedMode::Server => {
                        entry.server_mode = Some(sched_args);
                    },
                }
                self.scheds.insert(i, entry);
                proof {
                    assert(orig == old(self)@.scheds);
                    assert(forall|k: int| 0 <= k < orig.len() ==> entry_wf(#[trigger] orig[k]));
                    lemma_entry_with_args_name(orig[i as int], sched_mode, sched_args.deep_view());
                    assert(entry@ =~~= entry_with_args(orig[i as int], sched_mode, sched_args.deep_view()));
                    assert(self@.scheds =~~= orig.update(
                        i as int,
                        entry_with_args(orig[i as int], sched_mode, sched_args.deep_view()),
                    ));
                    lemma_set_args_first_at(
                        orig,
                        scx_sched@,
                        sched_mode,
                        sched_args.deep_view(),
                        i as int,
                    );
                    assert(self@ =~~= old(self)@.with_args(
                        scx_sched@,
                        sched_mode,
                        sched_args.deep_view(),
                    ));
                    lemma_set_args_wf(orig, scx_sched@, sched_mode, sched_args.deep_view());
                }
                return ;
            }
            i = i + 1;
        }
        let mut entry = SchedEntry {
            name: String::from_str(scx_sched.name()),
            auto_mode: None,
            gaming_mode: None,
            lowlatency_mode: None,
            powersave_mode: None,
            server_mode: None,
        };
        match sched_mode {
            SchedMode::Auto => {
                entry.auto_mode = Some(sched_args);
            },
            SchedMode::Gaming => {
                entry.gaming_mode = Some(sched_args);
            },
            SchedMode::LowLatency => {
                entry.lowlatency_mode = Some(sched_args);
            },
            SchedMode::PowerSave => {
                entry.powersave_mode = Some(sched_args);
            },
            SchedMode::Server => {
                entry.server_mode = Some(sched_args);
            },
        }
        self.scheds.push(entry);
        proof {
            assert(entry@ =~~= new_entry(scx_sched@, sched_mode, sched_args.deep_view()));
            assert(self@.scheds =~~= orig.push(new_entry(scx_sched@, sched_mode, sched_args.deep_view())));
            lemma_set_args_absent(orig, scx_sched@, sched_mode, sched_args.deep_view());
            assert(self@ =~~= old(self)@.with_args(scx_sched@, sched_mode, sched_args.deep_view()));
            lemma_set_args_wf(orig, scx_sched@, sched_mode, sched_args.deep_view());
        }
    }
}

/// When the first record named `name` stands at index `i`, storing an
/// argument set updates exactly that record in place.
pub proof fn lemma_set_args_first_at(
    s: Seq<EntryV>,
    name: Seq<char>,
    m: SchedMode,
    args: Seq<Seq<char>>,
    i: int,
)
    requires
        0 <= i < s.len(),
        s[i].name == name,
        forall|j: int| 0 <= j < i ==> #[trigger] s[j].name != name,
    ensures
        set_args_entries(s, name, m, args) == s.update(i, entry_with_args(s[i], m, args)),
    decreases s.len(),
{
    if i == 0 {
        assert(set_args_entries(s, name, m, args) =~= s.update(0, entry_with_args(s[0], m, args)));
    } else {
        assert(forall|j: int| 0 <= j < i - 1 ==> #[trigger] s.skip(1)[j].name != name);
        lemma_set_args_first_at(s.skip(1), name, m, args, i - 1);
        assert(set_args_entries(s, name, m, args) =~= s.update(i, entry_with_args(s[i], m, args)));
    }
}

/// When the first record named `name` stands at index `i`, that record is
/// the one the lookup finds.
pub proof fn lemma_find_entry_first_at(s: Seq<EntryV>, name: Seq<char>, i: int)
    requires
        0 <= i < s.len(),
        s[i].name == name,
        forall|j: int| 0 <= j < i ==> #[trigger] s[j].name != name,
    ensures
        find_entry(s, name) == Some(s[i]),
    decreases s.len(),
{
    if i > 0 {
        assert(forall|j: int| 0 <= j < i - 1 ==> #[trigger] s.skip(1)[j].name != name);
        lemma_find_entry_first_at(s.skip(1), name, i - 1);
    }
}

/// When no record is named `name`, the lookup finds nothing.
pub proof fn lemma_find_entry_absent(s: Seq<EntryV>, name: Seq<char>)
    requires
        forall|j: int| 0 <= j < s.len() ==> #[trigger] s[j].name != name,
    ensures
        find_entry(s, name) == None::<EntryV>,
    decreases s.len(),
{
    if s.len() > 0 {
        lemma_find_entry_absent(s.skip(1), name);
    }
}

/// Copies an argument list.
pub fn clone_args(v: &Vec<String>) -> (r: Vec<String>)
    ensures
        r.deep_view() == v.deep_view(),
{
    let mut r: Vec<String> = Vec::new();
    let n = v.len();
    let mut i: usize = 0;
    proof {
        assert(r.deep_view() =~~= v.deep_view().take(0));
    }
    while i < n
        invariant
            i <= n,
            n == v@.len(),
            r@.len() == i as int,
            r.deep_view() == v.deep_view().take(i as int),
        decreases n - i,
    {
        let ghost prev = r.deep_view();
        let ghost prevv = r@;
        r.push(v[i].clone());
        proof {
            assert(r@.len() == i as int + 1);
            assert(r.deep_view().len() == r@.len());
            assert(v.deep_view().len() == v@.len());
            assert forall|j: int| 0 <= j <= i as int implies r.deep_view()[j] == v.deep_view().take(
                i as int + 1,
            )[j] by {
                assert(r.deep_view()[j] == r@[j].deep_view());
                if j < i as int {
                    assert(r@[j] == prevv[j]);
                    assert(prev[j] == prevv[j].deep_view());
                    assert(prev[j] == v.deep_view().take(i as int)[j]);
                } else {
                    assert(r@[j]@ == v@[i as int]@);
                    assert(v.deep_view()[j] == v@[j].deep_view());
                }
            }
            assert(r.deep_view() =~= v.deep_view().take(i as int + 1));
        }
        i = i + 1;
    }
    proof {
        assert(v.deep_view().take(n as int) =~~= v.deep_view());
    }
    r
}

/// When no record is named `name`, storing an argument set appends a fresh
/// record.
pub proof fn lemma_set_args_absent(s: Seq<EntryV>, name: Seq<char>, m: SchedMode, args: Seq<Seq<char>>)
    requires
        forall|j: int| 0 <= j < s.len() ==> #[trigger] s[j].name != name,
    ensures
        set_args_entries(s, name, m, args) == s.push(new_entry(name, m, args)),
    decreases s.len(),
{
    if s.len() > 0 {
        lemma_set_args_absent(s.skip(1), name, m, args);
    }
    assert(set_args_entries(s, name, m, args) =~= s.push(new_entry(name, m, args)));
}

} // verus!
