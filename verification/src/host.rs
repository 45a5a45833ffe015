//! The plugin host's lifecycle: which discovered plugins are disabled, the state of each, and
//! the order in which plugins were activated. Activating a plugin first activates what it
//! depends on; deactivating or disabling one first does the same to what depends on it.
use vstd::prelude::*;
use crate::namespaces::{lemma_seq_lt_pair, seq_lt};
use crate::lifecycle::{
    activation, activation_order, dependent_chain, dependents_of, depends, ids_of, lemma_room,
    plugins_v, strictly_sorted, strs_v, transitive_dependent, Activation, DiscoveredPlugin,
    LifecycleError, index_of,
};
use crate::ordering::law_activation_order_is_topological;
use crate::plugin::PluginHostError;
use crate::text::{chars_of, push_str, seq_eq, string_from};

verus! {

/// Where a plugin stands in its lifecycle.
#[derive(Debug, Clone, Copy, PartialEq, Eq, Structural)]
pub enum PluginLifecycleState {
    Discovered,
    Validated,
    Registered,
    Active,
    Disabled,
}

/// When a hosted plugin is activated.
#[derive(Debug, Clone, Copy, PartialEq, Eq, Structural)]
pub enum PluginActivation {
    OnStartup,
    OnWorkspaceOpen,
    OnCommand,
}

/// A discovered plugin with what the host needs of its manifest: whether its kind is one the
/// host runs, and when it is activated.
#[derive(Debug, Clone)]
pub struct HostedPlugin {
    pub plugin: DiscoveredPlugin,
    pub hosted: bool,
    pub activation: PluginActivation,
}

/// The lifecycle part of the plugin host.
pub struct PluginHost {
    discovered: Vec<DiscoveredPlugin>,
    meta: Vec<(bool, PluginActivation)>,
    disabled: Vec<String>,
    states: Vec<(String, PluginLifecycleState)>,
    activation_events: Vec<String>,
}

/// The host as values: plugins (id and dependencies), their kind and activation, the
/// disabled ids, the recorded states (first entry per id counts), and the activation events.
pub struct HostV {
    pub ps: Seq<(Seq<char>, Seq<Seq<char>>)>,
    pub meta: Seq<(bool, PluginActivation)>,
    pub disabled: Seq<Seq<char>>,
    pub states: Seq<(Seq<char>, PluginLifecycleState)>,
    pub events: Seq<Seq<char>>,
}

impl View for PluginHost {
    type V = HostV;

    closed spec fn view(&self) -> HostV {
        HostV {
            ps: plugins_v(self.discovered@),
            meta: self.meta@,
            disabled: strs_v(self.disabled@),
            states: self.states@.map_values(|p: (String, PluginLifecycleState)| (p.0@, p.1)),
            events: strs_v(self.activation_events@),
        }
    }
}

impl PluginHost {
    #[verifier::type_invariant]
    spec fn inv(self) -> bool {
        self.meta@.len() == self.discovered@.len()
    }
}

/// Index of the first plugin with id `x`.
pub open spec fn find(ps: Seq<(Seq<char>, Seq<Seq<char>>)>, x: Seq<char>) -> Option<int>
    decreases ps.len(),
{
    if ps.len() == 0 {
        None
    } else {
        match find(ps.drop_last(), x) {
            Some(i) => Some(i),
            None => if ps.last().0 == x {
                Some(ps.len() - 1)
            } else {
                None
            },
        }
    }
}

/// Index of the first recorded state of `x`.
pub open spec fn state_index(states: Seq<(Seq<char>, PluginLifecycleState)>, x: Seq<char>) -> Option<int>
    decreases states.len(),
{
    if states.len() == 0 {
        None
    } else {
        match state_index(states.drop_last(), x) {
            Some(i) => Some(i),
            None => if states.last().0 == x {
                Some(states.len() - 1)
            } else {
                None
            },
        }
    }
}

/// The recorded state of `x` (first entry), `Discovered` when none is recorded.
pub open spec fn state_in(states: Seq<(Seq<char>, PluginLifecycleState)>, x: Seq<char>) -> PluginLifecycleState {
    match state_index(states, x) {
        Some(i) => states[i].1,
        None => PluginLifecycleState::Discovered,
    }
}

/// `states` with the first entry of `x` set to `s`, or a new entry for `x` appended.
pub open spec fn with_state(states: Seq<(Seq<char>, PluginLifecycleState)>, x: Seq<char>, s: PluginLifecycleState) -> Seq<
    (Seq<char>, PluginLifecycleState),
> {
    match state_index(states, x) {
        Some(i) => states.update(i, (x, s)),
        None => states.push((x, s)),
    }
}

/// `v` with `x` appended unless already present.
pub open spec fn add_once(v: Seq<Seq<char>>, x: Seq<char>) -> Seq<Seq<char>> {
    if v.contains(x) {
        v
    } else {
        v.push(x)
    }
}

/// `v` without any `x`.
pub open spec fn without(v: Seq<Seq<char>>, x: Seq<char>) -> Seq<Seq<char>> {
    v.filter(|y: Seq<char>| y != x)
}

/// Errors of lifecycle operations as values; `Other` stands for the errors they never raise.
pub enum HostFailure {
    NotFound(Seq<char>),
    Disabled(Seq<char>),
    Unsupported(Seq<char>, Seq<char>),
    MissingDependency(Seq<char>, Seq<char>),
    Cycle(Seq<char>),
    Other,
}

/// The failure an error reports.
pub open spec fn failure_of(e: PluginHostError) -> HostFailure {
    match e {
        PluginHostError::NotFound(s) => HostFailure::NotFound(s@),
        PluginHostError::Disabled(s) => HostFailure::Disabled(s@),
        PluginHostError::UnsupportedAction(a, b) => HostFailure::Unsupported(a@, b@),
        PluginHostError::Lifecycle(LifecycleError::MissingDependency(a, b)) => HostFailure::MissingDependency(a@, b@),
        PluginHostError::Lifecycle(LifecycleError::Cycle(s)) => HostFailure::Cycle(s@),
        _ => HostFailure::Other,
    }
}

/// A result as an outcome value.
pub open spec fn outcome_of<T>(r: Result<T, PluginHostError>) -> Result<(), HostFailure> {
    match r {
        Ok(_) => Ok(()),
        Err(e) => Err(failure_of(e)),
    }
}

fn text(s: &str) -> (r: String)
    ensures
        r@ == s@,
{
    string_from(chars_of(s).as_slice())
}

fn copy_text(s: &String) -> (r: String)
    ensures
        r@ == s@,
{
    string_from(chars_of(s.as_str()).as_slice())
}

/// The plugins of a list of hosted plugins, as values.
pub open spec fn hosted_ps(v: Seq<HostedPlugin>) -> Seq<(Seq<char>, Seq<Seq<char>>)> {
    v.map_values(|h: HostedPlugin| (h.plugin.id@, strs_v(h.plugin.depends_on@)))
}

fn copy_plugin(p: &DiscoveredPlugin) -> (r: DiscoveredPlugin)
    ensures
        r.id@ == p.id@,
        strs_v(r.depends_on@) == strs_v(p.depends_on@),
{
    let mut deps: Vec<String> = Vec::new();
    let mut j: usize = 0;
    while j < p.depends_on.len()
        invariant
            0 <= j <= p.depends_on.len(),
            strs_v(deps@) == strs_v(p.depends_on@).take(j as int),
        decreases p.depends_on.len() - j,
    {
        let c = copy_text(&p.depends_on[j]);
        let ghost before = deps@;
        deps.push(c);
        assert(deps@ == before.push(c));
        assert(strs_v(before.push(c)) =~= strs_v(before).push(c@));
        assert(strs_v(p.depends_on@).take(j + 1) =~= strs_v(p.depends_on@).take(j as int).push(p.depends_on@[j as int]@));
        assert(strs_v(deps@) =~= strs_v(p.depends_on@).take(j + 1));
        j += 1;
    }
    assert(strs_v(p.depends_on@).take(j as int) =~= strs_v(p.depends_on@));
    DiscoveredPlugin { id: copy_text(&p.id), depends_on: deps }
}

impl PluginHost {
    /// A host for the discovered plugins, with the ids disabled earlier; nothing is recorded
    /// yet.
    pub fn new(plugins: &Vec<HostedPlugin>, disabled: Vec<String>) -> (r: Self)
        ensures
            r@.ps == hosted_ps(plugins@),
            r@.meta == plugins@.map_values(|h: HostedPlugin| (h.hosted, h.activation)),
            r@.disabled == strs_v(disabled@),
            r@.states.len() == 0,
            r@.events.len() == 0,
    {
        let mut discovered: Vec<DiscoveredPlugin> = Vec::new();
        let mut meta: Vec<(bool, PluginActivation)> = Vec::new();
        let mut k: usize = 0;
        while k < plugins.len()
            invariant
                0 <= k <= plugins.len(),
                discovered@.len() == k,
                plugins_v(discovered@) == hosted_ps(plugins@).take(k as int),
                meta@ == plugins@.map_values(|h: HostedPlugin| (h.hosted, h.activation)).take(k as int),
            decreases plugins.len() - k,
        {
            let p = copy_plugin(&plugins[k].plugin);
            discovered.push(p);
            meta.push((plugins[k].hosted, plugins[k].activation));
            assert(plugins_v(discovered@) =~= hosted_ps(plugins@).take(k + 1));
            assert(meta@ =~= plugins@.map_values(|h: HostedPlugin| (h.hosted, h.activation)).take(k + 1));
            k += 1;
        }
        assert(hosted_ps(plugins@).take(k as int) =~= hosted_ps(plugins@));
        assert(plugins@.map_values(|h: HostedPlugin| (h.hosted, h.activation)).take(k as int) =~= plugins@.map_values(
            |h: HostedPlugin| (h.hosted, h.activation),
        ));
        let r = PluginHost { discovered, meta, disabled, states: Vec::new(), activation_events: Vec::new() };
        assert(r@.states =~= Seq::<(Seq<char>, PluginLifecycleState)>::empty());
        r
    }
}

fn same(a: &String, b: &str) -> (r: bool)
    ensures
        r == (a@ == b@),
{
    let x = chars_of(a.as_str());
    let y = chars_of(b);
    seq_eq(x.as_slice(), y.as_slice())
}

impl PluginHost {
    /// Index of the first recorded state of `plugin_id`.
    fn state_position(&self, plugin_id: &str) -> (r: Option<usize>)
        ensures
            match r {
                Some(i) => state_index(self@.states, plugin_id@) == Some(i as int) && i < self@.states.len(),
                None => state_index(self@.states, plugin_id@) is None,
            },
    {
        let ghost sv = self@.states;
        let mut i: usize = 0;
        while i < self.states.len()
            invariant
                0 <= i <= self.states.len(),
                sv == self@.states,
                sv.len() == self.states.len(),
                state_index(sv.take(i as int), plugin_id@) is None,
            decreases self.states.len() - i,
        {
            assert(sv.take(i + 1).drop_last() =~= sv.take(i as int));
            if same(&self.states[i].0, plugin_id) {
                proof {
                    lemma_state_index_prefix(sv, i as int + 1, plugin_id@);
                }
                return Some(i);
            }
            i += 1;
        }
        assert(sv.take(i as int) =~= sv);
        None
    }

    /// `state_of`: the recorded state of `plugin_id`, `Discovered` when none is recorded.
    pub fn state_of(&self, plugin_id: &str) -> (r: PluginLifecycleState)
        ensures
            r == state_in(self@.states, plugin_id@),
    {
        match self.state_position(plugin_id) {
            Some(i) => self.states[i].1,
            None => PluginLifecycleState::Discovered,
        }
    }

    /// `is_disabled`: whether `plugin_id` is disabled.
    pub fn is_disabled(&self, plugin_id: &str) -> (r: bool)
        ensures
            r == self@.disabled.contains(plugin_id@),
    {
        let mut i: usize = 0;
        while i < self.disabled.len()
            invariant
                0 <= i <= self.disabled.len(),
                forall|k: int| 0 <= k < i ==> self@.disabled[k] != plugin_id@,
            decreases self.disabled.len() - i,
        {
            if same(&self.disabled[i], plugin_id) {
                assert(self@.disabled[i as int] == plugin_id@);
                return true;
            }
            i += 1;
        }
        false
    }

    /// `activation_events`: the ids activated since the last `activate_all`, in order.
    pub fn activation_events(&self) -> (r: &Vec<String>)
        ensures
            strs_v(r@) == self@.events,
    {
        &self.activation_events
    }

    /// `discovered`: the discovered plugins.
    pub fn discovered(&self) -> (r: &Vec<DiscoveredPlugin>)
        ensures
            plugins_v(r@) == self@.ps,
    {
        &self.discovered
    }

    /// Index of the first plugin with id `plugin_id`.
    fn find_plugin(&self, plugin_id: &str) -> (r: Option<usize>)
        ensures
            match r {
                Some(i) => find(self@.ps, plugin_id@) == Some(i as int) && i < self@.ps.len(),
                None => find(self@.ps, plugin_id@) is None,
            },
    {
        let ghost ps = self@.ps;
        let mut i: usize = 0;
        while i < self.discovered.len()
            invariant
                0 <= i <= self.discovered.len(),
                ps == self@.ps,
                ps.len() == self.discovered.len(),
                find(ps.take(i as int), plugin_id@) is None,
            decreases self.discovered.len() - i,
        {
            assert(ps.take(i + 1).drop_last() =~= ps.take(i as int));
            if same(&self.discovered[i].id, plugin_id) {
                proof {
                    lemma_find_prefix(ps, i as int + 1, plugin_id@);
                }
                return Some(i);
            }
            i += 1;
        }
        assert(ps.take(i as int) =~= ps);
        None
    }

    fn set_state(&mut self, plugin_id: &str, st: PluginLifecycleState)
        ensures
            final(self)@ == (HostV { states: with_state(old(self)@.states, plugin_id@, st), ..old(self)@ }),
    {
        proof {
            use_type_invariant(&*self);
        }
        let ghost sv = self@.states;
        let pos = self.state_position(plugin_id);
        let mut states: Vec<(String, PluginLifecycleState)> = Vec::new();
        std::mem::swap(&mut states, &mut self.states);
        match pos {
            Some(i) => {
                states.set(i, (text(plugin_id), st));
            },
            None => {
                states.push((text(plugin_id), st));
            },
        }
        self.states = states;
        assert(self@.states =~= with_state(sv, plugin_id@, st));
    }
}

/// The first recorded state of `x` in a prefix is the first in the whole list.
proof fn lemma_state_index_prefix(sv: Seq<(Seq<char>, PluginLifecycleState)>, k: int, x: Seq<char>)
    requires
        0 <= k <= sv.len(),
        state_index(sv.take(k), x) is Some,
    ensures
        state_index(sv, x) == state_index(sv.take(k), x),
    decreases sv.len() - k,
{
    if k < sv.len() {
        assert(sv.take(k + 1).drop_last() =~= sv.take(k));
        lemma_state_index_prefix(sv, k + 1, x);
    } else {
        assert(sv.take(k) =~= sv);
    }
}

/// The first plugin with id `x` in a prefix is the first in the whole list.
proof fn lemma_find_prefix(ps: Seq<(Seq<char>, Seq<Seq<char>>)>, k: int, x: Seq<char>)
    requires
        0 <= k <= ps.len(),
        find(ps.take(k), x) is Some,
    ensures
        find(ps, x) == find(ps.take(k), x),
    decreases ps.len() - k,
{
    if k < ps.len() {
        assert(ps.take(k + 1).drop_last() =~= ps.take(k));
        lemma_find_prefix(ps, k + 1, x);
    } else {
        assert(ps.take(k) =~= ps);
    }
}

fn contains_text(v: &Vec<String>, x: &str) -> (r: bool)
    ensures
        r == strs_v(v@).contains(x@),
{
    let mut i: usize = 0;
    while i < v.len()
        invariant
            0 <= i <= v.len(),
            forall|k: int| 0 <= k < i ==> strs_v(v@)[k] != x@,
        decreases v.len() - i,
    {
        if same(&v[i], x) {
            assert(strs_v(v@)[i as int] == x@);
            return true;
        }
        i += 1;
    }
    false
}

fn add_text_once(v: &mut Vec<String>, x: &str)
    ensures
        strs_v(final(v)@) == add_once(strs_v(old(v)@), x@),
{
    if !contains_text(v, x) {
        let ghost before = v@;
        v.push(text(x));
        assert(strs_v(v@) =~= strs_v(before).push(x@));
    }
}

fn remove_text(v: &mut Vec<String>, x: &str)
    ensures
        strs_v(final(v)@) == without(strs_v(old(v)@), x@),
{
    let ghost src = strs_v(v@);
    let mut out: Vec<String> = Vec::new();
    let mut i: usize = 0;
    while i < v.len()
        invariant
            0 <= i <= v.len(),
            src == strs_v(v@),
            strs_v(out@) == without(src.take(i as int), x@),
        decreases v.len() - i,
    {
        assert(src.take(i + 1) =~= src.take(i as int).push(src[i as int]));
        assert(without(src.take(i + 1), x@) == without(src.take(i as int), x@) + if src[i as int] != x@ {
            seq![src[i as int]]
        } else {
            Seq::empty()
        }) by {
            let t = src.take(i as int);
            assert(t.push(src[i as int]).drop_last() =~= t);
            reveal_with_fuel(Seq::filter, 1);
        }
        if !same(&v[i], x) {
            let c = copy_text(&v[i]);
            let ghost b = out@;
            out.push(c);
            assert(strs_v(out@) =~= strs_v(b).push(c@));
        } else {
            assert(without(src.take(i as int), x@) + Seq::<Seq<char>>::empty() =~= without(src.take(i as int), x@));
        }
        i += 1;
    }
    assert(src.take(i as int) =~= src);
    *v = out;
}

impl PluginHost {
    fn disable_id(&mut self, plugin_id: &str)
        ensures
            final(self)@ == (HostV { disabled: add_once(old(self)@.disabled, plugin_id@), ..old(self)@ }),
    {
        proof {
            use_type_invariant(&*self);
        }
        let mut d: Vec<String> = Vec::new();
        std::mem::swap(&mut d, &mut self.disabled);
        add_text_once(&mut d, plugin_id);
        self.disabled = d;
    }

    fn enable_id(&mut self, plugin_id: &str)
        ensures
            final(self)@ == (HostV { disabled: without(old(self)@.disabled, plugin_id@), ..old(self)@ }),
    {
        proof {
            use_type_invariant(&*self);
        }
        let mut d: Vec<String> = Vec::new();
        std::mem::swap(&mut d, &mut self.disabled);
        remove_text(&mut d, plugin_id);
        self.disabled = d;
    }

    fn record_event(&mut self, plugin_id: &str)
        ensures
            final(self)@ == (HostV { events: add_once(old(self)@.events, plugin_id@), ..old(self)@ }),
    {
        proof {
            use_type_invariant(&*self);
        }
        let mut d: Vec<String> = Vec::new();
        std::mem::swap(&mut d, &mut self.activation_events);
        add_text_once(&mut d, plugin_id);
        self.activation_events = d;
    }

    fn forget_event(&mut self, plugin_id: &str)
        ensures
            final(self)@ == (HostV { events: without(old(self)@.events, plugin_id@), ..old(self)@ }),
    {
        proof {
            use_type_invariant(&*self);
        }
        let mut d: Vec<String> = Vec::new();
        std::mem::swap(&mut d, &mut self.activation_events);
        remove_text(&mut d, plugin_id);
        self.activation_events = d;
    }

    fn clear_events(&mut self)
        ensures
            final(self)@ == (HostV { events: Seq::empty(), ..old(self)@ }),
    {
        proof {
            use_type_invariant(&*self);
        }
        self.activation_events = Vec::new();
        assert(self@.events =~= Seq::<Seq<char>>::empty());
    }
}

/// The host after a lifecycle operation, and whether it succeeded.
pub type Step = (HostV, Result<(), HostFailure>);

/// `x` marked active and recorded as activated.
pub open spec fn activated(h: HostV, x: Seq<char>) -> HostV {
    HostV { states: with_state(h.states, x, PluginLifecycleState::Active), events: add_once(h.events, x), ..h }
}

/// `activate`: a disabled plugin is refused, an unknown one is not found, one of a kind the
/// host does not run is unsupported; otherwise its dependencies are activated in order (a
/// disabled dependency is a missing one, an active one is left alone), and it becomes active.
/// `depth` counts the activations in progress above this one, of at most `n` plugins.
pub open spec fn act(h: HostV, x: Seq<char>, n: nat, depth: nat) -> Step
    decreases 2 * (n - depth) + 1, 0int,
{
    if depth > n {
        (h, Ok(()))
    } else if h.disabled.contains(x) {
        (h, Err(HostFailure::Disabled(x)))
    } else {
        match find(h.ps, x) {
            None => (h, Err(HostFailure::NotFound(x))),
            Some(i) => if !h.meta[i].0 {
                (h, Err(HostFailure::Unsupported(x, "activate (reserved kind)"@)))
            } else {
                let (h2, r) = act_deps(h, x, h.ps[i].1, 0, n, depth);
                match r {
                    Err(e) => (h2, Err(e)),
                    Ok(_) => (activated(h2, x), Ok(())),
                }
            },
        }
    }
}

/// The dependencies `deps[j..]` of `x` activated in turn.
pub open spec fn act_deps(h: HostV, x: Seq<char>, deps: Seq<Seq<char>>, j: int, n: nat, depth: nat) -> Step
    decreases 2 * (n - depth), deps.len() - j,
{
    if depth >= n || j < 0 || j >= deps.len() {
        (h, Ok(()))
    } else {
        let d = deps[j];
        if h.disabled.contains(d) {
            (h, Err(HostFailure::MissingDependency(x, d + " (disabled)"@)))
        } else if state_in(h.states, d) != PluginLifecycleState::Active {
            let (h2, r) = act(h, d, n, depth + 1);
            match r {
                Err(e) => (h2, Err(e)),
                Ok(_) => act_deps(h2, x, deps, j + 1, n, depth),
            }
        } else {
            act_deps(h, x, deps, j + 1, n, depth)
        }
    }
}

/// The plugins that depend on `x` directly or transitively, in sorted order.
pub open spec fn dependents_seq(ps: Seq<(Seq<char>, Seq<Seq<char>>)>, x: Seq<char>) -> Seq<Seq<char>> {
    choose|s: Seq<Seq<char>>|
        (forall|y: Seq<char>| s.contains(y) <==> transitive_dependent(ps, x, y)) && strictly_sorted(s)
}

/// `deactivate`: an unknown plugin is not found; otherwise its active dependents are
/// deactivated in sorted order, then it is registered again and its activation event dropped.
pub open spec fn deact(h: HostV, x: Seq<char>, n: nat, depth: nat) -> Step
    decreases 2 * (n - depth) + 1, 0int,
{
    if depth > n {
        (h, Ok(()))
    } else {
        match find(h.ps, x) {
            None => (h, Err(HostFailure::NotFound(x))),
            Some(_) => {
                let (h2, r) = deact_each(h, dependents_seq(h.ps, x), 0, n, depth);
                match r {
                    Err(e) => (h2, Err(e)),
                    Ok(_) => (
                        HostV {
                            states: with_state(h2.states, x, PluginLifecycleState::Registered),
                            events: without(h2.events, x),
                            ..h2
                        },
                        Ok(()),
                    ),
                }
            },
        }
    }
}

/// The active ones among `ds[j..]` deactivated in turn.
pub open spec fn deact_each(h: HostV, ds: Seq<Seq<char>>, j: int, n: nat, depth: nat) -> Step
    decreases 2 * (n - depth), ds.len() - j,
{
    if depth >= n || j < 0 || j >= ds.len() {
        (h, Ok(()))
    } else if state_in(h.states, ds[j]) == PluginLifecycleState::Active {
        let (h2, r) = deact(h, ds[j], n, depth + 1);
        match r {
            Err(e) => (h2, Err(e)),
            Ok(_) => deact_each(h2, ds, j + 1, n, depth),
        }
    } else {
        deact_each(h, ds, j + 1, n, depth)
    }
}

/// `disable_plugin`: an unknown plugin is not found; otherwise its dependents are disabled
/// in sorted order (failures ignored), it is deactivated (failure ignored), and it becomes
/// disabled.
pub open spec fn dis(h: HostV, x: Seq<char>, n: nat, depth: nat) -> Step
    decreases 2 * (n - depth) + 1, 0int,
{
    if depth > n {
        (h, Ok(()))
    } else {
        match find(h.ps, x) {
            None => (h, Err(HostFailure::NotFound(x))),
            Some(_) => {
                let h2 = dis_each(h, x, dependents_seq(h.ps, x), 0, n, depth);
                let h3 = deact(h2, x, n, 0).0;
                (
                    HostV {
                        disabled: add_once(h3.disabled, x),
                        states: with_state(h3.states, x, PluginLifecycleState::Disabled),
                        ..h3
                    },
                    Ok(()),
                )
            },
        }
    }
}

/// The dependents `ds[j..]` of `x`, other than `x`, disabled in turn.
pub open spec fn dis_each(h: HostV, x: Seq<char>, ds: Seq<Seq<char>>, j: int, n: nat, depth: nat) -> HostV
    decreases 2 * (n - depth), ds.len() - j,
{
    if depth >= n || j < 0 || j >= ds.len() {
        h
    } else if ds[j] != x {
        dis_each(dis(h, ds[j], n, depth + 1).0, x, ds, j + 1, n, depth)
    } else {
        dis_each(h, x, ds, j + 1, n, depth)
    }
}

/// `enable_plugin`: an unknown plugin is not found; otherwise it is no longer disabled, it is
/// registered, and it is activated when it activates on startup or on opening the workspace.
pub open spec fn enab(h: HostV, x: Seq<char>, n: nat) -> Step {
    match find(h.ps, x) {
        None => (h, Err(HostFailure::NotFound(x))),
        Some(i) => {
            let h2 = HostV {
                disabled: without(h.disabled, x),
                states: with_state(h.states, x, PluginLifecycleState::Registered),
                ..h
            };
            if h.meta[i].1 != PluginActivation::OnCommand {
                act(h2, x, n, 0)
            } else {
                (h2, Ok(()))
            }
        },
    }
}

/// The plugins `o[k..]` of an activation order taken in turn by `activate_all`: disabled
/// ones are marked disabled, those of kinds the host does not run are skipped, the others
/// are activated or, when they activate on command, registered.
pub open spec fn all_each(h: HostV, o: Seq<Seq<char>>, k: int, n: nat) -> Step
    decreases o.len() - k,
{
    if k < 0 || k >= o.len() {
        (h, Ok(()))
    } else {
        let id = o[k];
        match find(h.ps, id) {
            None => (h, Err(HostFailure::NotFound(id))),
            Some(i) => if h.disabled.contains(id) {
                all_each(HostV { states: with_state(h.states, id, PluginLifecycleState::Disabled), ..h }, o, k + 1, n)
            } else if !h.meta[i].0 {
                all_each(h, o, k + 1, n)
            } else if h.meta[i].1 == PluginActivation::OnCommand {
                all_each(HostV { states: with_state(h.states, id, PluginLifecycleState::Registered), ..h }, o, k + 1, n)
            } else {
                let (h2, r) = act(h, id, n, 0);
                match r {
                    Err(e) => (h2, Err(e)),
                    Ok(_) => all_each(h2, o, k + 1, n),
                }
            },
        }
    }
}

/// `activate_all`: the activation order, or its failure; the activation events are reset
/// and every plugin taken in that order.
pub open spec fn act_all(h: HostV) -> Step {
    match activation(h.ps) {
        Activation::Missing(a, b) => (h, Err(HostFailure::MissingDependency(a, b))),
        Activation::Cycle(c) => (h, Err(HostFailure::Cycle(c))),
        Activation::Order(o) => all_each(HostV { events: Seq::empty(), ..h }, o, 0, h.ps.len()),
    }
}

/// Two host states with the same plugins.
pub open spec fn same_plugins(a: HostV, b: HostV) -> bool {
    a.ps == b.ps && a.meta == b.meta
}

proof fn lemma_act_keeps(h: HostV, x: Seq<char>, n: nat, depth: nat)
    ensures
        same_plugins(act(h, x, n, depth).0, h),
    decreases 2 * (n - depth) + 1, 0int,
{
    if depth <= n && !h.disabled.contains(x) {
        if let Some(i) = find(h.ps, x) {
            if h.meta[i].0 {
                lemma_act_deps_keeps(h, x, h.ps[i].1, 0, n, depth);
            }
        }
    }
}

proof fn lemma_act_deps_keeps(h: HostV, x: Seq<char>, deps: Seq<Seq<char>>, j: int, n: nat, depth: nat)
    ensures
        same_plugins(act_deps(h, x, deps, j, n, depth).0, h),
    decreases 2 * (n - depth), deps.len() - j,
{
    if !(depth >= n || j < 0 || j >= deps.len()) {
        let d = deps[j];
        if !h.disabled.contains(d) {
            if state_in(h.states, d) != PluginLifecycleState::Active {
                lemma_act_keeps(h, d, n, depth + 1);
                let h2 = act(h, d, n, depth + 1).0;
                lemma_act_deps_keeps(h2, x, deps, j + 1, n, depth);
            } else {
                lemma_act_deps_keeps(h, x, deps, j + 1, n, depth);
            }
        }
    }
}

proof fn lemma_deact_keeps(h: HostV, x: Seq<char>, n: nat, depth: nat)
    ensures
        same_plugins(deact(h, x, n, depth).0, h),
    decreases 2 * (n - depth) + 1, 0int,
{
    if depth <= n {
        if let Some(_) = find(h.ps, x) {
            lemma_deact_each_keeps(h, dependents_seq(h.ps, x), 0, n, depth);
        }
    }
}

proof fn lemma_deact_each_keeps(h: HostV, ds: Seq<Seq<char>>, j: int, n: nat, depth: nat)
    ensures
        same_plugins(deact_each(h, ds, j, n, depth).0, h),
    decreases 2 * (n - depth), ds.len() - j,
{
    if !(depth >= n || j < 0 || j >= ds.len()) {
        if state_in(h.states, ds[j]) == PluginLifecycleState::Active {
            lemma_deact_keeps(h, ds[j], n, depth + 1);
            lemma_deact_each_keeps(deact(h, ds[j], n, depth + 1).0, ds, j + 1, n, depth);
        } else {
            lemma_deact_each_keeps(h, ds, j + 1, n, depth);
        }
    }
}

proof fn lemma_dis_keeps(h: HostV, x: Seq<char>, n: nat, depth: nat)
    ensures
        same_plugins(dis(h, x, n, depth).0, h),
    decreases 2 * (n - depth) + 1, 0int,
{
    if depth <= n {
        if let Some(_) = find(h.ps, x) {
            let h2 = dis_each(h, x, dependents_seq(h.ps, x), 0, n, depth);
            lemma_dis_each_keeps(h, x, dependents_seq(h.ps, x), 0, n, depth);
            lemma_deact_keeps(h2, x, n, 0);
        }
    }
}

proof fn lemma_dis_each_keeps(h: HostV, x: Seq<char>, ds: Seq<Seq<char>>, j: int, n: nat, depth: nat)
    ensures
        same_plugins(dis_each(h, x, ds, j, n, depth), h),
    decreases 2 * (n - depth), ds.len() - j,
{
    if !(depth >= n || j < 0 || j >= ds.len()) {
        if ds[j] != x {
            lemma_dis_keeps(h, ds[j], n, depth + 1);
            lemma_dis_each_keeps(dis(h, ds[j], n, depth + 1).0, x, ds, j + 1, n, depth);
        } else {
            lemma_dis_each_keeps(h, x, ds, j + 1, n, depth);
        }
    }
}

/// No plugin depends on itself, directly or transitively.
pub open spec fn acyclic(ps: Seq<(Seq<char>, Seq<Seq<char>>)>) -> bool {
    forall|x: Seq<char>| !#[trigger] transitive_dependent(ps, x, x)
}

proof fn lemma_find_some(ps: Seq<(Seq<char>, Seq<Seq<char>>)>, x: Seq<char>)
    ensures
        match find(ps, x) {
            Some(i) => 0 <= i < ps.len() && ps[i].0 == x && ids_of(ps).contains(x),
            None => !ids_of(ps).contains(x),
        },
    decreases ps.len(),
{
    if ps.len() > 0 {
        lemma_find_some(ps.drop_last(), x);
        let ids = ids_of(ps);
        assert(ids_of(ps.drop_last()) =~= ids.drop_last());
        match find(ps.drop_last(), x) {
            Some(i) => {
                assert(ids[i] == x);
            },
            None => {
                if ps.last().0 == x {
                    assert(ids[ps.len() - 1] == x);
                } else {
                    if ids.contains(x) {
                        let k = choose|k: int| 0 <= k < ids.len() && ids[k] == x;
                        if k < ps.len() - 1 {
                            assert(ids.drop_last()[k] == x);
                        }
                    }
                }
            },
        }
    }
}

/// `stack` then `x`: distinct, each entry of `stack` a plugin listing the next entry among
/// its dependencies (the activations in progress).
pub open spec fn dep_chain(ps: Seq<(Seq<char>, Seq<Seq<char>>)>, stack: Seq<Seq<char>>, x: Seq<char>) -> bool {
    &&& stack.push(x).no_duplicates()
    &&& forall|i: int| 0 <= i < stack.len() ==> find(ps, #[trigger] stack[i]) is Some
    &&& forall|i: int| 0 <= i < stack.len() ==> depends(ps, stack.push(x)[i + 1], #[trigger] stack[i])
}

/// A chain of activations leaves room below the number of plugins.
proof fn lemma_chain_room(ps: Seq<(Seq<char>, Seq<Seq<char>>)>, stack: Seq<Seq<char>>, x: Seq<char>)
    requires
        stack.push(x).no_duplicates(),
        forall|i: int| 0 <= i < stack.len() ==> find(ps, #[trigger] stack[i]) is Some,
        find(ps, x) is Some,
    ensures
        stack.len() < ps.len(),
{
    let ids = ids_of(ps);
    assert(stack.no_duplicates()) by {
        assert forall|i: int, j: int| 0 <= i < j < stack.len() implies stack[i] != stack[j] by {
            assert(stack.push(x)[i] == stack[i] && stack.push(x)[j] == stack[j]);
        }
    }
    assert forall|y: Seq<char>| stack.contains(y) implies ids.contains(y) by {
        let i = choose|i: int| 0 <= i < stack.len() && stack[i] == y;
        lemma_find_some(ps, stack[i]);
    }
    lemma_find_some(ps, x);
    assert(!stack.contains(x)) by {
        if stack.contains(x) {
            let i = choose|i: int| 0 <= i < stack.len() && stack[i] == x;
            assert(stack.push(x)[i] == stack.push(x)[stack.len() as int]);
        }
    }
    lemma_room(stack, ids, x);
}

/// A dependency of the plugin being activated extends the chain, when there is no cycle.
proof fn lemma_dep_chain_extend(ps: Seq<(Seq<char>, Seq<Seq<char>>)>, stack: Seq<Seq<char>>, x: Seq<char>, i: int, j: int)
    requires
        acyclic(ps),
        dep_chain(ps, stack, x),
        find(ps, x) == Some(i),
        0 <= j < ps[i].1.len(),
    ensures
        dep_chain(ps, stack.push(x), ps[i].1[j]),
{
    lemma_find_some(ps, x);
    let d = ps[i].1[j];
    let y = stack.push(x);
    let l = stack.len() as int;
    assert(depends(ps, d, x));
    assert(!y.contains(d)) by {
        if y.contains(d) {
            let m = choose|m: int| 0 <= m < y.len() && y[m] == d;
            let path = Seq::new((l - m + 1) as nat, |k: int| y[l - k]);
            assert(path[0] == x);
            assert forall|k: int| 0 <= k < path.len() - 1 implies depends(ps, #[trigger] path[k], path[k + 1]) by {
                assert(path[k] == y[l - k] && path[k + 1] == y[l - k - 1]);
                assert(stack[l - k - 1] == y[l - k - 1]);
                assert(stack.push(x)[(l - k - 1) + 1] == y[l - k]);
            }
            assert(dependent_chain(ps, d, path));
            assert(path.last() == d);
            assert(transitive_dependent(ps, d, d));
        }
    }
    assert(y.push(d).no_duplicates()) by {
        assert forall|a: int, b: int| 0 <= a < b < y.push(d).len() implies y.push(d)[a] != y.push(d)[b] by {
            if b == y.len() {
                assert(y.push(d)[a] == y[a]);
            } else {
                assert(y.push(d)[a] == y[a] && y.push(d)[b] == y[b]);
            }
        }
    }
    assert forall|k: int| 0 <= k < y.len() implies find(ps, #[trigger] y[k]) is Some by {
        if k < l {
            assert(y[k] == stack[k]);
        }
    }
    assert forall|k: int| 0 <= k < y.len() implies depends(ps, y.push(d)[k + 1], #[trigger] y[k]) by {
        if k < l {
            assert(y[k] == stack[k]);
            assert(y.push(d)[k + 1] == stack.push(x)[k + 1]);
        } else {
            assert(y.push(d)[k + 1] == d);
        }
    }
}

fn copy_texts(v: &Vec<String>) -> (r: Vec<String>)
    ensures
        strs_v(r@) == strs_v(v@),
{
    let mut out: Vec<String> = Vec::new();
    let mut j: usize = 0;
    while j < v.len()
        invariant
            0 <= j <= v.len(),
            strs_v(out@) == strs_v(v@).take(j as int),
        decreases v.len() - j,
    {
        let c = copy_text(&v[j]);
        let ghost before = out@;
        out.push(c);
        assert(strs_v(before.push(c)) =~= strs_v(before).push(c@));
        assert(strs_v(v@).take(j + 1) =~= strs_v(v@).take(j as int).push(v@[j as int]@));
        j += 1;
    }
    assert(strs_v(v@).take(j as int) =~= strs_v(v@));
    out
}

impl PluginHost {
    fn activate_rec(&mut self, plugin_id: &str, Ghost(n): Ghost<nat>, Ghost(stack): Ghost<Seq<Seq<char>>>) -> (r: Result<(), PluginHostError>)
        requires
            n == old(self)@.ps.len(),
            acyclic(old(self)@.ps),
            dep_chain(old(self)@.ps, stack, plugin_id@),
            stack.len() <= n,
        ensures
            (final(self)@, outcome_of(r)) == act(old(self)@, plugin_id@, n, stack.len()),
        decreases 2 * (n - stack.len()) + 1, 0int,
    {
        let ghost h0 = self@;
        let ghost depth = stack.len();
        if self.is_disabled(plugin_id) {
            return Err(PluginHostError::Disabled(text(plugin_id)));
        }
        let i = match self.find_plugin(plugin_id) {
            None => {
                return Err(PluginHostError::NotFound(text(plugin_id)));
            },
            Some(i) => i,
        };
        proof {
            use_type_invariant(&*self);
            lemma_find_some(h0.ps, plugin_id@);
            lemma_chain_room(h0.ps, stack, plugin_id@);
        }
        if !self.meta[i].0 {
            return Err(PluginHostError::UnsupportedAction(text(plugin_id), text("activate (reserved kind)")));
        }
        let deps = copy_texts(&self.discovered[i].depends_on);
        let ghost dv = h0.ps[i as int].1;
        assert(strs_v(deps@) == dv);
        let mut j: usize = 0;
        while j < deps.len()
            invariant
                0 <= j <= deps.len(),
                old(self)@ == h0,
                strs_v(deps@) == dv,
                dv == h0.ps[i as int].1,
                n == h0.ps.len(),
                depth == stack.len(),
                depth < n,
                same_plugins(self@, h0),
                acyclic(h0.ps),
                dep_chain(h0.ps, stack, plugin_id@),
                find(h0.ps, plugin_id@) == Some(i as int),
                0 <= i < h0.ps.len(),
                !h0.disabled.contains(plugin_id@),
                h0.meta[i as int].0,
                act_deps(h0, plugin_id@, dv, 0, n, depth) == act_deps(self@, plugin_id@, dv, j as int, n, depth),
            decreases deps.len() - j,
        {
            let d = &deps[j];
            assert(dv[j as int] == d@);
            if self.is_disabled(d.as_str()) {
                let mut m = chars_of(d.as_str());
                push_str(&mut m, " (disabled)");
                let ghost fail = HostFailure::MissingDependency(plugin_id@, d@ + " (disabled)"@);
                assert(act_deps(self@, plugin_id@, dv, j as int, n, depth) == (self@, Err::<(), HostFailure>(fail)));
                assert(act(h0, plugin_id@, n, depth) == (self@, Err::<(), HostFailure>(fail)));
                let res: Result<(), PluginHostError> = Err(
                    PluginHostError::Lifecycle(LifecycleError::MissingDependency(text(plugin_id), string_from(m.as_slice()))),
                );
                assert(outcome_of(res) == Err::<(), HostFailure>(fail));
                return res;
            }
            if self.state_of(d.as_str()) != PluginLifecycleState::Active {
                proof {
                    lemma_dep_chain_extend(h0.ps, stack, plugin_id@, i as int, j as int);
                    lemma_act_keeps(self@, d@, n, depth + 1);
                }
                let ghost before = self@;
                let res = self.activate_rec(d.as_str(), Ghost(n), Ghost(stack.push(plugin_id@)));
                match res {
                    Err(_) => {
                        assert(act_deps(before, plugin_id@, dv, j as int, n, depth) == (self@, outcome_of(res)));
                        assert(act(h0, plugin_id@, n, depth) == (self@, outcome_of(res)));
                        return res;
                    },
                    Ok(()) => {},
                }
            }
            j += 1;
        }
        self.set_state(plugin_id, PluginLifecycleState::Active);
        self.record_event(plugin_id);
        Ok(())
    }
}

impl PluginHost {
    /// `activate`: activates `plugin_id` after what it depends on (see `act`).
    pub fn activate(&mut self, plugin_id: &str) -> (r: Result<(), PluginHostError>)
        requires
            acyclic(old(self)@.ps),
        ensures
            (final(self)@, outcome_of(r)) == act(old(self)@, plugin_id@, old(self)@.ps.len(), 0),
    {
        let ghost n = self@.ps.len();
        let ghost stack = Seq::<Seq<char>>::empty();
        assert(stack.push(plugin_id@).no_duplicates());
        self.activate_rec(plugin_id, Ghost(n), Ghost(stack))
    }
}

/// Two strictly sorted sequences with the same elements are the same.
pub(crate) proof fn lemma_sorted_unique(a: Seq<Seq<char>>, b: Seq<Seq<char>>)
    requires
        strictly_sorted(a),
        strictly_sorted(b),
        forall|y: Seq<char>| a.contains(y) <==> b.contains(y),
    ensures
        a == b,
    decreases a.len(),
{
    if a.len() == 0 {
        if b.len() > 0 {
            assert(b.contains(b[0]));
        }
        assert(a =~= b);
    } else {
        assert(a.contains(a[0]));
        assert(b.len() > 0);
        assert(b.contains(b[0]));
        let k = choose|k: int| 0 <= k < b.len() && b[k] == a[0];
        let m = choose|m: int| 0 <= m < a.len() && a[m] == b[0];
        if k > 0 && m > 0 {
            assert(seq_lt(b[0], b[k]));
            assert(seq_lt(a[0], a[m]));
            lemma_seq_lt_pair(a[0], b[0]);
        } else if k > 0 {
            assert(b[0] == a[0]);
            assert(seq_lt(b[0], b[k]));
            assert(b[k] == b[0]);
            crate::namespaces::lemma_seq_lt_irreflexive(b[0]);
        } else if m > 0 {
            assert(a[0] == b[0]);
            assert(seq_lt(a[0], a[m]));
            crate::namespaces::lemma_seq_lt_irreflexive(a[0]);
        }
        assert(a[0] == b[0]);
        let a1 = a.drop_first();
        let b1 = b.drop_first();
        assert forall|y: Seq<char>| a1.contains(y) <==> b1.contains(y) by {
            if a1.contains(y) {
                let i = choose|i: int| 0 <= i < a1.len() && a1[i] == y;
                assert(a[i + 1] == y);
                assert(seq_lt(a[0], a[i + 1]));
                assert(b.contains(y));
                let q = choose|q: int| 0 <= q < b.len() && b[q] == y;
                if q == 0 {
                    crate::namespaces::lemma_seq_lt_irreflexive(y);
                }
                assert(b1[q - 1] == y);
            }
            if b1.contains(y) {
                let i = choose|i: int| 0 <= i < b1.len() && b1[i] == y;
                assert(b[i + 1] == y);
                assert(seq_lt(b[0], b[i + 1]));
                assert(a.contains(y));
                let q = choose|q: int| 0 <= q < a.len() && a[q] == y;
                if q == 0 {
                    crate::namespaces::lemma_seq_lt_irreflexive(y);
                }
                assert(a1[q - 1] == y);
            }
        }
        assert(strictly_sorted(a1)) by {
            assert forall|i: int, j: int| 0 <= i < j < a1.len() implies seq_lt(#[trigger] a1[i], #[trigger] a1[j]) by {
                assert(a1[i] == a[i + 1] && a1[j] == a[j + 1]);
            }
        }
        assert(strictly_sorted(b1)) by {
            assert forall|i: int, j: int| 0 <= i < j < b1.len() implies seq_lt(#[trigger] b1[i], #[trigger] b1[j]) by {
                assert(b1[i] == b[i + 1] && b1[j] == b[j + 1]);
            }
        }
        lemma_sorted_unique(a1, b1);
        assert(a =~= seq![a[0]] + a1);
        assert(b =~= seq![b[0]] + b1);
    }
}

/// The result of `dependents_of` is `dependents_seq`.
proof fn lemma_dependents_seq(ps: Seq<(Seq<char>, Seq<Seq<char>>)>, x: Seq<char>, r: Seq<Seq<char>>)
    requires
        forall|y: Seq<char>| r.contains(y) <==> transitive_dependent(ps, x, y),
        strictly_sorted(r),
    ensures
        dependents_seq(ps, x) == r,
{
    let s = dependents_seq(ps, x);
    assert((forall|y: Seq<char>| s.contains(y) <==> transitive_dependent(ps, x, y)) && strictly_sorted(s));
    lemma_sorted_unique(s, r);
}

/// Depending transitively is transitive.
proof fn lemma_td_trans(ps: Seq<(Seq<char>, Seq<Seq<char>>)>, a: Seq<char>, b: Seq<char>, c: Seq<char>)
    requires
        transitive_dependent(ps, a, b),
        transitive_dependent(ps, b, c),
    ensures
        transitive_dependent(ps, a, c),
{
    let p1 = choose|p: Seq<Seq<char>>| #[trigger] dependent_chain(ps, a, p) && p.last() == b;
    let p2 = choose|p: Seq<Seq<char>>| #[trigger] dependent_chain(ps, b, p) && p.last() == c;
    let p = p1 + p2;
    assert forall|i: int| 0 <= i < p.len() - 1 implies depends(ps, #[trigger] p[i], p[i + 1]) by {
        if i < p1.len() - 1 {
            assert(p[i] == p1[i] && p[i + 1] == p1[i + 1]);
        } else if i == p1.len() - 1 {
            assert(p[i] == p1.last());
            assert(p[i + 1] == p2[0]);
        } else {
            assert(p[i] == p2[i - p1.len()] && p[i + 1] == p2[i - p1.len() + 1]);
        }
    }
    assert(p[0] == p1[0]);
    assert(dependent_chain(ps, a, p));
    assert(p.last() == c);
}

/// `stack` then `x`: distinct, each entry of `stack` a plugin on which the next entry
/// depends, directly or transitively (the deactivations in progress).
pub open spec fn dependent_line(ps: Seq<(Seq<char>, Seq<Seq<char>>)>, stack: Seq<Seq<char>>, x: Seq<char>) -> bool {
    &&& stack.push(x).no_duplicates()
    &&& forall|i: int| 0 <= i < stack.len() ==> find(ps, #[trigger] stack[i]) is Some
    &&& forall|i: int| 0 <= i < stack.len() ==> transitive_dependent(ps, #[trigger] stack[i], stack.push(x)[i + 1])
}

proof fn lemma_line_reaches(ps: Seq<(Seq<char>, Seq<Seq<char>>)>, y: Seq<Seq<char>>, m: int, l: int)
    requires
        0 <= m < l < y.len(),
        forall|i: int| 0 <= i < y.len() - 1 ==> transitive_dependent(ps, #[trigger] y[i], y[i + 1]),
    ensures
        transitive_dependent(ps, y[m], y[l]),
    decreases l - m,
{
    if l > m + 1 {
        lemma_line_reaches(ps, y, m, l - 1);
        assert(transitive_dependent(ps, y[l - 1], y[l]));
        lemma_td_trans(ps, y[m], y[l - 1], y[l]);
    }
}

/// A transitive dependent of the plugin being deactivated extends the line, when there is no
/// cycle.
proof fn lemma_line_extend(ps: Seq<(Seq<char>, Seq<Seq<char>>)>, stack: Seq<Seq<char>>, x: Seq<char>, d: Seq<char>)
    requires
        acyclic(ps),
        dependent_line(ps, stack, x),
        find(ps, x) is Some,
        transitive_dependent(ps, x, d),
    ensures
        dependent_line(ps, stack.push(x), d),
{
    let y = stack.push(x);
    let z = y.push(d);
    let l = stack.len() as int;
    assert forall|i: int| 0 <= i < z.len() - 1 implies transitive_dependent(ps, #[trigger] z[i], z[i + 1]) by {
        if i < l {
            assert(z[i] == stack[i]);
            assert(z[i + 1] == stack.push(x)[i + 1]);
        } else {
            assert(z[i] == x && z[i + 1] == d);
        }
    }
    assert(!y.contains(d)) by {
        if y.contains(d) {
            let m = choose|m: int| 0 <= m < y.len() && y[m] == d;
            lemma_line_reaches(ps, z, m, z.len() - 1);
            assert(z[m] == d && z[z.len() - 1] == d);
            assert(transitive_dependent(ps, d, d));
        }
    }
    assert(z.no_duplicates()) by {
        assert forall|a: int, b: int| 0 <= a < b < z.len() implies z[a] != z[b] by {
            if b == y.len() {
                assert(z[a] == y[a]);
            } else {
                assert(z[a] == y[a] && z[b] == y[b]);
            }
        }
    }
    assert forall|k: int| 0 <= k < y.len() implies find(ps, #[trigger] y[k]) is Some by {
        if k < l {
            assert(y[k] == stack[k]);
        }
    }
    assert forall|k: int| 0 <= k < y.len() implies transitive_dependent(ps, #[trigger] y[k], y.push(d)[k + 1]) by {
        assert(z[k] == y[k]);
    }
}

impl PluginHost {
    /// The ids that depend on `plugin_id`, as `dependents_seq`.
    fn dependents(&self, plugin_id: &str) -> (r: Vec<String>)
        ensures
            strs_v(r@) == dependents_seq(self@.ps, plugin_id@),
            forall|y: Seq<char>| strs_v(r@).contains(y) <==> transitive_dependent(self@.ps, plugin_id@, y),
    {
        let r = dependents_of(self.discovered.as_slice(), plugin_id);
        proof {
            lemma_dependents_seq(self@.ps, plugin_id@, strs_v(r@));
        }
        r
    }

    fn deactivate_rec(&mut self, plugin_id: &str, Ghost(n): Ghost<nat>, Ghost(stack): Ghost<Seq<Seq<char>>>) -> (r: Result<(), PluginHostError>)
        requires
            n == old(self)@.ps.len(),
            acyclic(old(self)@.ps),
            dependent_line(old(self)@.ps, stack, plugin_id@),
            stack.len() <= n,
        ensures
            (final(self)@, outcome_of(r)) == deact(old(self)@, plugin_id@, n, stack.len()),
            find(old(self)@.ps, plugin_id@) is Some ==> forall|z: Seq<char>|
                dependents_seq(old(self)@.ps, plugin_id@).contains(z) <==> transitive_dependent(old(self)@.ps, plugin_id@, z),
        decreases 2 * (n - stack.len()) + 1, 0int,
    {
        let ghost h0 = self@;
        let ghost depth = stack.len();
        match self.find_plugin(plugin_id) {
            None => {
                return Err(PluginHostError::NotFound(text(plugin_id)));
            },
            Some(_) => {},
        }
        proof {
            lemma_chain_room(h0.ps, stack, plugin_id@);
        }
        let ds = self.dependents(plugin_id);
        let ghost dv = dependents_seq(h0.ps, plugin_id@);
        let mut j: usize = 0;
        while j < ds.len()
            invariant
                0 <= j <= ds.len(),
                old(self)@ == h0,
                strs_v(ds@) == dv,
                dv == dependents_seq(h0.ps, plugin_id@),
                forall|y: Seq<char>| dv.contains(y) <==> transitive_dependent(h0.ps, plugin_id@, y),
                n == h0.ps.len(),
                depth == stack.len(),
                depth < n,
                same_plugins(self@, h0),
                acyclic(h0.ps),
                dependent_line(h0.ps, stack, plugin_id@),
                find(h0.ps, plugin_id@) is Some,
                deact_each(h0, dv, 0, n, depth) == deact_each(self@, dv, j as int, n, depth),
            decreases ds.len() - j,
        {
            let d = &ds[j];
            assert(dv[j as int] == d@);
            if self.state_of(d.as_str()) == PluginLifecycleState::Active {
                proof {
                    assert(dv.contains(d@));
                    lemma_line_extend(h0.ps, stack, plugin_id@, d@);
                    lemma_deact_keeps(self@, d@, n, depth + 1);
                }
                let ghost before = self@;
                let res = self.deactivate_rec(d.as_str(), Ghost(n), Ghost(stack.push(plugin_id@)));
                match res {
                    Err(_) => {
                        assert(deact_each(before, dv, j as int, n, depth) == (self@, outcome_of(res)));
                        assert(deact(h0, plugin_id@, n, depth) == (self@, outcome_of(res)));
                        return res;
                    },
                    Ok(()) => {},
                }
            }
            j += 1;
        }
        self.set_state(plugin_id, PluginLifecycleState::Registered);
        self.forget_event(plugin_id);
        Ok(())
    }

    /// `deactivate`: deactivates the active plugins that depend on `plugin_id`, then
    /// `plugin_id` itself (see `deact`).
    pub fn deactivate(&mut self, plugin_id: &str) -> (r: Result<(), PluginHostError>)
        requires
            acyclic(old(self)@.ps),
        ensures
            (final(self)@, outcome_of(r)) == deact(old(self)@, plugin_id@, old(self)@.ps.len(), 0),
            r is Ok ==> state_in(final(self)@.states, plugin_id@) == PluginLifecycleState::Registered,
            r is Ok ==> forall|y: Seq<char>|
                transitive_dependent(old(self)@.ps, plugin_id@, y) ==> state_in(final(self)@.states, y)
                    != PluginLifecycleState::Active,
    {
        let ghost h0 = self@;
        let ghost n = self@.ps.len();
        let ghost stack = Seq::<Seq<char>>::empty();
        assert(stack.push(plugin_id@).no_duplicates());
        let r = self.deactivate_rec(plugin_id, Ghost(n), Ghost(stack));
        proof {
            if r is Ok {
                let h2 = deact_each(h0, dependents_seq(h0.ps, plugin_id@), 0, n, 0).0;
                lemma_with_state(h2.states, plugin_id@, PluginLifecycleState::Registered, plugin_id@);
                assert forall|y: Seq<char>| transitive_dependent(h0.ps, plugin_id@, y) implies state_in(
                    self@.states,
                    y,
                ) != PluginLifecycleState::Active by {
                    lemma_deact_cascades(h0, plugin_id@, y);
                }
            }
        }
        r
    }
}

/// Plugins that get an activation order have no dependency cycle: a caller that has
/// obtained an order from `activation_order` meets the `acyclic` requirement of the
/// lifecycle operations.
pub proof fn lemma_order_acyclic(ps: Seq<(Seq<char>, Seq<Seq<char>>)>)
    requires
        activation(ps) is Order,
    ensures
        acyclic(ps),
{
    law_activation_order_is_topological(ps);
    let o = activation(ps)->Order_0;
    assert forall|x: Seq<char>| !#[trigger] transitive_dependent(ps, x, x) by {
        if transitive_dependent(ps, x, x) {
            let p = choose|p: Seq<Seq<char>>| #[trigger] dependent_chain(ps, x, p) && p.last() == x;
            assert forall|a: Seq<char>, b: Seq<char>| depends(ps, a, b) implies index_of(o, a) < index_of(o, b) by {
                let (i, j) = choose|i: int, j: int|
                    0 <= i < ps.len() && 0 <= j < ps[i].1.len() && ps[i].0 == b && #[trigger] ps[i].1[j] == a;
            }
            lemma_chain_rises(ps, o, x, p, p.len() - 1);
        }
    }
}

proof fn lemma_chain_rises(ps: Seq<(Seq<char>, Seq<Seq<char>>)>, o: Seq<Seq<char>>, x: Seq<char>, p: Seq<Seq<char>>, k: int)
    requires
        dependent_chain(ps, x, p),
        0 <= k < p.len(),
        forall|a: Seq<char>, b: Seq<char>| depends(ps, a, b) ==> index_of(o, a) < index_of(o, b),
    ensures
        index_of(o, x) < index_of(o, p[k]),
    decreases k,
{
    if k > 0 {
        lemma_chain_rises(ps, o, x, p, k - 1);
        assert(depends(ps, p[k - 1], p[k]));
    }
}

impl PluginHost {
    fn disable_rec(&mut self, plugin_id: &str, Ghost(n): Ghost<nat>, Ghost(stack): Ghost<Seq<Seq<char>>>) -> (r: Result<(), PluginHostError>)
        requires
            n == old(self)@.ps.len(),
            acyclic(old(self)@.ps),
            dependent_line(old(self)@.ps, stack, plugin_id@),
            stack.len() <= n,
        ensures
            (final(self)@, outcome_of(r)) == dis(old(self)@, plugin_id@, n, stack.len()),
            find(old(self)@.ps, plugin_id@) is Some ==> forall|z: Seq<char>|
                dependents_seq(old(self)@.ps, plugin_id@).contains(z) <==> transitive_dependent(old(self)@.ps, plugin_id@, z),
        decreases 2 * (n - stack.len()) + 1, 0int,
    {
        let ghost h0 = self@;
        let ghost depth = stack.len();
        match self.find_plugin(plugin_id) {
            None => {
                return Err(PluginHostError::NotFound(text(plugin_id)));
            },
            Some(_) => {},
        }
        proof {
            lemma_chain_room(h0.ps, stack, plugin_id@);
        }
        let ds = self.dependents(plugin_id);
        let ghost dv = dependents_seq(h0.ps, plugin_id@);
        let mut j: usize = 0;
        while j < ds.len()
            invariant
                0 <= j <= ds.len(),
                old(self)@ == h0,
                strs_v(ds@) == dv,
                dv == dependents_seq(h0.ps, plugin_id@),
                forall|y: Seq<char>| dv.contains(y) <==> transitive_dependent(h0.ps, plugin_id@, y),
                n == h0.ps.len(),
                depth == stack.len(),
                depth < n,
                same_plugins(self@, h0),
                acyclic(h0.ps),
                dependent_line(h0.ps, stack, plugin_id@),
                find(h0.ps, plugin_id@) is Some,
                dis_each(h0, plugin_id@, dv, 0, n, depth) == dis_each(self@, plugin_id@, dv, j as int, n, depth),
            decreases ds.len() - j,
        {
            let d = &ds[j];
            assert(dv[j as int] == d@);
            if !same(d, plugin_id) {
                proof {
                    assert(dv.contains(d@));
                    lemma_line_extend(h0.ps, stack, plugin_id@, d@);
                    lemma_dis_keeps(self@, d@, n, depth + 1);
                }
                let _ = self.disable_rec(d.as_str(), Ghost(n), Ghost(stack.push(plugin_id@)));
            }
            j += 1;
        }
        let ghost h2 = self@;
        assert(h2 == dis_each(h0, plugin_id@, dv, 0, n, depth));
        proof {
            lemma_deact_keeps(h2, plugin_id@, n, 0);
        }
        let _ = self.deactivate(plugin_id);
        self.disable_id(plugin_id);
        self.set_state(plugin_id, PluginLifecycleState::Disabled);
        Ok(())
    }

    /// `disable_plugin`: disables the plugins that depend on `plugin_id`, deactivates it, and
    /// marks it disabled (see `dis`).
    pub fn disable_plugin(&mut self, plugin_id: &str) -> (r: Result<(), PluginHostError>)
        requires
            acyclic(old(self)@.ps),
        ensures
            (final(self)@, outcome_of(r)) == dis(old(self)@, plugin_id@, old(self)@.ps.len(), 0),
            r is Ok ==> forall|y: Seq<char>|
                (transitive_dependent(old(self)@.ps, plugin_id@, y) || y == plugin_id@) ==> #[trigger] is_off(
                    final(self)@,
                    y,
                ),
    {
        let ghost h0 = self@;
        let ghost n = self@.ps.len();
        let ghost stack = Seq::<Seq<char>>::empty();
        assert(stack.push(plugin_id@).no_duplicates());
        let r = self.disable_rec(plugin_id, Ghost(n), Ghost(stack));
        proof {
            if r is Ok {
                assert forall|y: Seq<char>| (transitive_dependent(h0.ps, plugin_id@, y) || y == plugin_id@) implies is_off(
                    self@,
                    y,
                ) by {
                    lemma_dis_cascades(h0, plugin_id@, y);
                }
            }
        }
        r
    }

    /// `enable_plugin`: `plugin_id` is no longer disabled, is registered, and is activated when
    /// it activates on startup or on opening the workspace (see `enab`).
    pub fn enable_plugin(&mut self, plugin_id: &str) -> (r: Result<(), PluginHostError>)
        requires
            acyclic(old(self)@.ps),
        ensures
            (final(self)@, outcome_of(r)) == enab(old(self)@, plugin_id@, old(self)@.ps.len()),
            r is Ok ==> !final(self)@.disabled.contains(plugin_id@),
            r is Ok ==> state_in(final(self)@.states, plugin_id@) == PluginLifecycleState::Registered || state_in(
                final(self)@.states,
                plugin_id@,
            ) == PluginLifecycleState::Active,
    {
        let ghost h0 = self@;
        let i = match self.find_plugin(plugin_id) {
            None => {
                return Err(PluginHostError::NotFound(text(plugin_id)));
            },
            Some(i) => i,
        };
        proof {
            use_type_invariant(&*self);
        }
        let mode = self.meta[i].1;
        self.enable_id(plugin_id);
        self.set_state(plugin_id, PluginLifecycleState::Registered);
        let ghost h2 = self@;
        proof {
            lemma_without_drops(h0.disabled, plugin_id@);
            lemma_with_state(h0.states, plugin_id@, PluginLifecycleState::Registered, plugin_id@);
        }
        if mode != PluginActivation::OnCommand {
            let r = self.activate(plugin_id);
            proof {
                lemma_act_keeps_disabled(h2, plugin_id@, h2.ps.len(), 0);
                if r is Ok {
                    law_activation_makes_active(h2, plugin_id@, h2.ps.len(), 0);
                }
            }
            r
        } else {
            Ok(())
        }
    }

    /// `activate_all`: in activation order, marks disabled plugins disabled, registers those
    /// activated on command, and activates the others of the kinds the host runs; the
    /// activation events, reset first, are returned (see `act_all`).
    pub fn activate_all(&mut self) -> (r: Result<Vec<String>, PluginHostError>)
        ensures
            (final(self)@, outcome_of(r)) == act_all(old(self)@),
            r matches Ok(v) ==> strs_v(v@) == final(self)@.events,
    {
        let ghost h0 = self@;
        let ghost n = h0.ps.len();
        let order = match activation_order(self.discovered.as_slice()) {
            Err(e) => {
                return Err(PluginHostError::Lifecycle(e));
            },
            Ok(o) => o,
        };
        let ghost ov = strs_v(order@);
        proof {
            lemma_order_acyclic(h0.ps);
        }
        self.clear_events();
        let ghost h1 = self@;
        let mut k: usize = 0;
        while k < order.len()
            invariant
                0 <= k <= order.len(),
                strs_v(order@) == ov,
                activation(h0.ps) == Activation::Order(ov),
                h1 == (HostV { events: Seq::empty(), ..h0 }),
                n == h0.ps.len(),
                same_plugins(self@, h0),
                acyclic(h0.ps),
                old(self)@ == h0,
                all_each(h1, ov, 0, n) == all_each(self@, ov, k as int, n),
            decreases order.len() - k,
        {
            let id = &order[k];
            assert(ov[k as int] == id@);
            let i = match self.find_plugin(id.as_str()) {
                None => {
                    return Err(PluginHostError::NotFound(text(id.as_str())));
                },
                Some(i) => i,
            };
            proof {
                use_type_invariant(&*self);
            }
            if self.is_disabled(id.as_str()) {
                self.set_state(id.as_str(), PluginLifecycleState::Disabled);
            } else if !self.meta[i].0 {
            } else if self.meta[i].1 == PluginActivation::OnCommand {
                self.set_state(id.as_str(), PluginLifecycleState::Registered);
            } else {
                let ghost before = self@;
                proof {
                    lemma_act_keeps(self@, id@, n, 0);
                }
                let res = self.activate(id.as_str());
                match res {
                    Err(e) => {
                        assert(all_each(before, ov, k as int, n) == (self@, outcome_of(res)));
                        assert(outcome_of(res) == Err::<(), HostFailure>(failure_of(e)));
                        return Err(e);
                    },
                    Ok(()) => {},
                }
            }
            k += 1;
        }
        Ok(copy_texts(&self.activation_events))
    }
}

proof fn lemma_state_index(s: Seq<(Seq<char>, PluginLifecycleState)>, x: Seq<char>)
    ensures
        match state_index(s, x) {
            Some(i) => 0 <= i < s.len() && s[i].0 == x && forall|k: int| 0 <= k < i ==> s[k].0 != x,
            None => forall|k: int| 0 <= k < s.len() ==> s[k].0 != x,
        },
    decreases s.len(),
{
    if s.len() > 0 {
        lemma_state_index(s.drop_last(), x);
        assert forall|k: int| 0 <= k < s.len() - 1 implies s.drop_last()[k] == s[k] by {}
    }
}

proof fn lemma_state_index_same(s: Seq<(Seq<char>, PluginLifecycleState)>, t: Seq<(Seq<char>, PluginLifecycleState)>, y: Seq<char>)
    requires
        s.len() == t.len(),
        forall|k: int| 0 <= k < s.len() ==> (s[k].0 == y <==> t[k].0 == y),
    ensures
        state_index(s, y) == state_index(t, y),
    decreases s.len(),
{
    if s.len() > 0 {
        assert forall|k: int| 0 <= k < s.len() - 1 implies (s.drop_last()[k].0 == y <==> t.drop_last()[k].0 == y) by {
            assert(s.drop_last()[k] == s[k] && t.drop_last()[k] == t[k]);
        }
        lemma_state_index_same(s.drop_last(), t.drop_last(), y);
        assert(s.last() == s[s.len() - 1] && t.last() == t[t.len() - 1]);
    }
}

/// Recording a state for `x` is what `state_in` then reads for `x`; other ids keep theirs.
pub proof fn lemma_with_state(s: Seq<(Seq<char>, PluginLifecycleState)>, x: Seq<char>, st: PluginLifecycleState, y: Seq<char>)
    ensures
        state_in(with_state(s, x, st), x) == st,
        y != x ==> state_in(with_state(s, x, st), y) == state_in(s, y),
{
    lemma_state_index(s, x);
    let t = with_state(s, x, st);
    match state_index(s, x) {
        Some(i) => {
            assert(t == s.update(i, (x, st)));
            lemma_state_index(t, x);
            match state_index(t, x) {
                Some(j) => {
                    if j < i {
                        assert(t[j] == s[j]);
                    } else if j > i {
                        assert(t[i].0 == x);
                    }
                },
                None => {
                    assert(t[i].0 == x);
                },
            }
            if y != x {
                assert forall|k: int| 0 <= k < s.len() implies (s[k].0 == y <==> t[k].0 == y) by {
                    if k != i {
                        assert(t[k] == s[k]);
                    }
                }
                lemma_state_index_same(s, t, y);
                lemma_state_index(s, y);
                if let Some(j) = state_index(s, y) {
                    assert(j != i);
                    assert(t[j] == s[j]);
                }
            }
        },
        None => {
            assert(t == s.push((x, st)));
            lemma_state_index(t, x);
            match state_index(t, x) {
                Some(j) => {
                    if j < s.len() {
                        assert(t[j] == s[j]);
                    }
                },
                None => {
                    assert(t[s.len() as int].0 == x);
                },
            }
            if y != x {
                lemma_state_index(s, y);
                lemma_state_index(t, y);
                match state_index(t, y) {
                    Some(j) => {
                        if j < s.len() {
                            assert(t[j] == s[j]);
                            match state_index(s, y) {
                                Some(q) => {
                                    if q < j {
                                        assert(t[q] == s[q]);
                                    } else if q > j {
                                        assert(s[j].0 == y);
                                    }
                                },
                                None => {
                                    assert(s[j].0 == y);
                                },
                            }
                        } else {
                            assert(t[j].0 == x);
                        }
                    },
                    None => {
                        if let Some(q) = state_index(s, y) {
                            assert(t[q] == s[q]);
                        }
                    },
                }
            }
        },
    }
}

/// Law: a successful activation leaves the plugin active and recorded among the
/// activation events.
pub proof fn law_activation_makes_active(h: HostV, x: Seq<char>, n: nat, depth: nat)
    requires
        act(h, x, n, depth).1 is Ok,
        depth <= n,
    ensures
        state_in(act(h, x, n, depth).0.states, x) == PluginLifecycleState::Active,
        act(h, x, n, depth).0.events.contains(x),
{
    let i = find(h.ps, x)->Some_0;
    let h2 = act_deps(h, x, h.ps[i].1, 0, n, depth).0;
    lemma_with_state(h2.states, x, PluginLifecycleState::Active, x);
    if !h2.events.contains(x) {
        assert(h2.events.push(x)[h2.events.len() as int] == x);
    }
}

/// Law: disabling a known plugin leaves it disabled, in the disabled set and in its state.
pub proof fn law_disable_marks_disabled(h: HostV, x: Seq<char>, n: nat)
    requires
        dis(h, x, n, 0).1 is Ok,
    ensures
        dis(h, x, n, 0).0.disabled.contains(x),
        state_in(dis(h, x, n, 0).0.states, x) == PluginLifecycleState::Disabled,
{
    let h2 = dis_each(h, x, dependents_seq(h.ps, x), 0, n, 0);
    let h3 = deact(h2, x, n, 0).0;
    lemma_with_state(h3.states, x, PluginLifecycleState::Disabled, x);
    if !h3.disabled.contains(x) {
        assert(h3.disabled.push(x)[h3.disabled.len() as int] == x);
    }
}


/// Activation never leaves an active plugin inactive.
proof fn lemma_act_keeps_active(h: HostV, x: Seq<char>, n: nat, depth: nat, y: Seq<char>)
    requires
        state_in(h.states, y) == PluginLifecycleState::Active,
    ensures
        state_in(act(h, x, n, depth).0.states, y) == PluginLifecycleState::Active,
    decreases 2 * (n - depth) + 1, 0int,
{
    if depth <= n && !h.disabled.contains(x) {
        if let Some(i) = find(h.ps, x) {
            if h.meta[i].0 {
                lemma_act_deps_keeps_active(h, x, h.ps[i].1, 0, n, depth, y);
                let h2 = act_deps(h, x, h.ps[i].1, 0, n, depth).0;
                lemma_with_state(h2.states, x, PluginLifecycleState::Active, y);
            }
        }
    }
}

proof fn lemma_act_deps_keeps_active(h: HostV, x: Seq<char>, deps: Seq<Seq<char>>, j: int, n: nat, depth: nat, y: Seq<char>)
    requires
        state_in(h.states, y) == PluginLifecycleState::Active,
    ensures
        state_in(act_deps(h, x, deps, j, n, depth).0.states, y) == PluginLifecycleState::Active,
    decreases 2 * (n - depth), deps.len() - j,
{
    if !(depth >= n || j < 0 || j >= deps.len()) {
        let d = deps[j];
        if h.disabled.contains(d) {
        } else if state_in(h.states, d) != PluginLifecycleState::Active {
            lemma_act_keeps_active(h, d, n, depth + 1, y);
            let (h2, r) = act(h, d, n, depth + 1);
            if r is Ok {
                lemma_act_deps_keeps_active(h2, x, deps, j + 1, n, depth, y);
            }
        } else {
            lemma_act_deps_keeps_active(h, x, deps, j + 1, n, depth, y);
        }
    }
}

/// Dependencies `deps[j..]` taken in turn with success are all active afterwards.
proof fn lemma_act_deps_activates(h: HostV, x: Seq<char>, deps: Seq<Seq<char>>, j: int, n: nat, depth: nat)
    requires
        depth < n,
        0 <= j,
        act_deps(h, x, deps, j, n, depth).1 is Ok,
    ensures
        forall|k: int|
            j <= k < deps.len() ==> state_in(act_deps(h, x, deps, j, n, depth).0.states, #[trigger] deps[k])
                == PluginLifecycleState::Active,
    decreases deps.len() - j,
{
    if j < deps.len() {
        let d = deps[j];
        let hn = if state_in(h.states, d) != PluginLifecycleState::Active {
            law_activation_makes_active(h, d, n, depth + 1);
            act(h, d, n, depth + 1).0
        } else {
            h
        };
        assert(state_in(hn.states, d) == PluginLifecycleState::Active);
        assert(act_deps(h, x, deps, j, n, depth) == act_deps(hn, x, deps, j + 1, n, depth));
        lemma_act_deps_activates(hn, x, deps, j + 1, n, depth);
        lemma_act_deps_keeps_active(hn, x, deps, j + 1, n, depth, d);
    }
}

/// Law: a successful activation leaves every dependency of the plugin active.
pub proof fn law_activation_activates_dependencies(h: HostV, x: Seq<char>)
    requires
        act(h, x, h.ps.len(), 0).1 is Ok,
    ensures
        forall|k: int|
            0 <= k < h.ps[find(h.ps, x)->Some_0].1.len() ==> state_in(
                act(h, x, h.ps.len(), 0).0.states,
                #[trigger] h.ps[find(h.ps, x)->Some_0].1[k],
            ) == PluginLifecycleState::Active,
{
    let n = h.ps.len();
    let i = find(h.ps, x)->Some_0;
    lemma_find_some(h.ps, x);
    let deps = h.ps[i].1;
    lemma_act_deps_activates(h, x, deps, 0, n, 0);
    let h2 = act_deps(h, x, deps, 0, n, 0).0;
    assert forall|k: int| 0 <= k < deps.len() implies state_in(act(h, x, n, 0).0.states, #[trigger] deps[k])
        == PluginLifecycleState::Active by {
        lemma_with_state(h2.states, x, PluginLifecycleState::Active, deps[k]);
    }
}

/// A transitive dependent is one of the plugins.
proof fn lemma_td_found(ps: Seq<(Seq<char>, Seq<Seq<char>>)>, x: Seq<char>, y: Seq<char>)
    requires
        transitive_dependent(ps, x, y),
    ensures
        find(ps, y) is Some,
{
    let p = choose|p: Seq<Seq<char>>| #[trigger] dependent_chain(ps, x, p) && p.last() == y;
    if p.len() == 1 {
        assert(depends(ps, x, p[0]));
    } else {
        assert(depends(ps, p[p.len() - 2], p[p.len() - 1]));
    }
    assert(depends(ps, if p.len() == 1 { x } else { p[p.len() - 2] }, y));
    let (i, j) = choose|i: int, j: int|
        0 <= i < ps.len() && 0 <= j < ps[i].1.len() && ps[i].0 == y && #[trigger] ps[i].1[j] == (if p.len()
            == 1 {
            x
        } else {
            p[p.len() - 2]
        });
    lemma_find_some(ps, y);
    assert(ids_of(ps)[i] == y);
}

/// `y` is disabled, in the disabled list and in its state.
pub open spec fn is_off(h: HostV, y: Seq<char>) -> bool {
    h.disabled.contains(y) && state_in(h.states, y) == PluginLifecycleState::Disabled
}

proof fn lemma_add_once_contains(v: Seq<Seq<char>>, x: Seq<char>, y: Seq<char>)
    requires
        v.contains(y) || y == x,
    ensures
        add_once(v, x).contains(y),
{
    if !v.contains(x) {
        if y == x {
            assert(v.push(x)[v.len() as int] == x);
        } else {
            let k = choose|k: int| 0 <= k < v.len() && v[k] == y;
            assert(v.push(x)[k] == y);
        }
    }
}

/// Disabling a known plugin within the depth bound turns it off.
proof fn lemma_dis_sets(h: HostV, y: Seq<char>, n: nat, depth: nat)
    requires
        depth <= n,
        find(h.ps, y) is Some,
    ensures
        is_off(dis(h, y, n, depth).0, y),
        dis(h, y, n, depth).1 is Ok,
{
    let h2 = dis_each(h, y, dependents_seq(h.ps, y), 0, n, depth);
    let h3 = deact(h2, y, n, 0).0;
    lemma_with_state(h3.states, y, PluginLifecycleState::Disabled, y);
    lemma_add_once_contains(h3.disabled, y, y);
}

proof fn lemma_dis_keeps_off(h: HostV, w: Seq<char>, n: nat, depth: nat, y: Seq<char>)
    requires
        is_off(h, y),
    ensures
        is_off(dis(h, w, n, depth).0, y),
    decreases 2 * (n - depth) + 1, 0int,
{
    if depth <= n {
        if let Some(_) = find(h.ps, w) {
            let ds = dependents_seq(h.ps, w);
            lemma_dis_each_keeps_off(h, w, ds, 0, n, depth, y);
            let h2 = dis_each(h, w, ds, 0, n, depth);
            if w != y {
                lemma_deact_keeps_off(h2, w, n, 0, y);
            }
            let h3 = deact(h2, w, n, 0).0;
            lemma_with_state(h3.states, w, PluginLifecycleState::Disabled, y);
            lemma_add_once_contains(h3.disabled, w, y);
        }
    }
}

proof fn lemma_dis_each_keeps_off(h: HostV, x: Seq<char>, ds: Seq<Seq<char>>, j: int, n: nat, depth: nat, y: Seq<char>)
    requires
        is_off(h, y),
    ensures
        is_off(dis_each(h, x, ds, j, n, depth), y),
    decreases 2 * (n - depth), ds.len() - j,
{
    if !(depth >= n || j < 0 || j >= ds.len()) {
        if ds[j] != x {
            lemma_dis_keeps_off(h, ds[j], n, depth + 1, y);
            lemma_dis_each_keeps_off(dis(h, ds[j], n, depth + 1).0, x, ds, j + 1, n, depth, y);
        } else {
            lemma_dis_each_keeps_off(h, x, ds, j + 1, n, depth, y);
        }
    }
}

proof fn lemma_deact_keeps_off(h: HostV, w: Seq<char>, n: nat, depth: nat, y: Seq<char>)
    requires
        is_off(h, y),
        w != y,
    ensures
        is_off(deact(h, w, n, depth).0, y),
    decreases 2 * (n - depth) + 1, 0int,
{
    if depth <= n {
        if let Some(_) = find(h.ps, w) {
            lemma_deact_each_keeps_off(h, dependents_seq(h.ps, w), 0, n, depth, y);
            let h2 = deact_each(h, dependents_seq(h.ps, w), 0, n, depth).0;
            lemma_with_state(h2.states, w, PluginLifecycleState::Registered, y);
        }
    }
}

proof fn lemma_deact_each_keeps_off(h: HostV, ds: Seq<Seq<char>>, j: int, n: nat, depth: nat, y: Seq<char>)
    requires
        is_off(h, y),
    ensures
        is_off(deact_each(h, ds, j, n, depth).0, y),
    decreases 2 * (n - depth), ds.len() - j,
{
    if !(depth >= n || j < 0 || j >= ds.len()) {
        if state_in(h.states, ds[j]) == PluginLifecycleState::Active {
            lemma_deact_keeps_off(h, ds[j], n, depth + 1, y);
            let (h2, r) = deact(h, ds[j], n, depth + 1);
            if r is Ok {
                lemma_deact_each_keeps_off(h2, ds, j + 1, n, depth, y);
            }
        } else {
            lemma_deact_each_keeps_off(h, ds, j + 1, n, depth, y);
        }
    }
}

/// Disabling the listed dependents in turn turns off each of them other than `x`.
proof fn lemma_dis_each_reaches(h: HostV, x: Seq<char>, ds: Seq<Seq<char>>, j: int, k: int, n: nat, depth: nat)
    requires
        depth < n,
        0 <= j <= k < ds.len(),
        ds[k] != x,
        find(h.ps, ds[k]) is Some,
    ensures
        is_off(dis_each(h, x, ds, j, n, depth), ds[k]),
    decreases k - j,
{
    let y = ds[k];
    if j == k {
        lemma_dis_sets(h, y, n, depth + 1);
        lemma_dis_each_keeps_off(dis(h, y, n, depth + 1).0, x, ds, j + 1, n, depth, y);
    } else {
        let hn = if ds[j] != x {
            lemma_dis_keeps(h, ds[j], n, depth + 1);
            dis(h, ds[j], n, depth + 1).0
        } else {
            h
        };
        assert(dis_each(h, x, ds, j, n, depth) == dis_each(hn, x, ds, j + 1, n, depth));
        lemma_dis_each_reaches(hn, x, ds, j + 1, k, n, depth);
    }
}

/// Disabling a known plugin turns off the plugin and every plugin that depends on it,
/// directly or transitively.
proof fn lemma_dis_cascades(h: HostV, x: Seq<char>, y: Seq<char>)
    requires
        find(h.ps, x) is Some,
        forall|z: Seq<char>| dependents_seq(h.ps, x).contains(z) <==> transitive_dependent(h.ps, x, z),
        transitive_dependent(h.ps, x, y) || y == x,
    ensures
        is_off(dis(h, x, h.ps.len(), 0).0, y),
{
    let n = h.ps.len();
    lemma_find_some(h.ps, x);
    let ds = dependents_seq(h.ps, x);
    let h2 = dis_each(h, x, ds, 0, n, 0);
    let h3 = deact(h2, x, n, 0).0;
    if y != x {
        lemma_td_found(h.ps, x, y);
        assert(ds.contains(y));
        let k = choose|k: int| 0 <= k < ds.len() && ds[k] == y;
        lemma_dis_each_reaches(h, x, ds, 0, k, n, 0);
        lemma_deact_keeps_off(h2, x, n, 0, y);
    }
    lemma_with_state(h3.states, x, PluginLifecycleState::Disabled, y);
    lemma_add_once_contains(h3.disabled, x, y);
}

/// Deactivation never makes a plugin active.
proof fn lemma_deact_keeps_inactive(h: HostV, w: Seq<char>, n: nat, depth: nat, y: Seq<char>)
    requires
        state_in(h.states, y) != PluginLifecycleState::Active,
    ensures
        state_in(deact(h, w, n, depth).0.states, y) != PluginLifecycleState::Active,
    decreases 2 * (n - depth) + 1, 0int,
{
    if depth <= n {
        if let Some(_) = find(h.ps, w) {
            lemma_deact_each_keeps_inactive(h, dependents_seq(h.ps, w), 0, n, depth, y);
            let h2 = deact_each(h, dependents_seq(h.ps, w), 0, n, depth).0;
            lemma_with_state(h2.states, w, PluginLifecycleState::Registered, y);
        }
    }
}

proof fn lemma_deact_each_keeps_inactive(h: HostV, ds: Seq<Seq<char>>, j: int, n: nat, depth: nat, y: Seq<char>)
    requires
        state_in(h.states, y) != PluginLifecycleState::Active,
    ensures
        state_in(deact_each(h, ds, j, n, depth).0.states, y) != PluginLifecycleState::Active,
    decreases 2 * (n - depth), ds.len() - j,
{
    if !(depth >= n || j < 0 || j >= ds.len()) {
        if state_in(h.states, ds[j]) == PluginLifecycleState::Active {
            lemma_deact_keeps_inactive(h, ds[j], n, depth + 1, y);
            let (h2, r) = deact(h, ds[j], n, depth + 1);
            if r is Ok {
                lemma_deact_each_keeps_inactive(h2, ds, j + 1, n, depth, y);
            }
        } else {
            lemma_deact_each_keeps_inactive(h, ds, j + 1, n, depth, y);
        }
    }
}

/// Deactivating the listed plugins in turn with success leaves none of them active.
proof fn lemma_deact_each_reaches(h: HostV, ds: Seq<Seq<char>>, j: int, k: int, n: nat, depth: nat)
    requires
        depth < n,
        0 <= j <= k < ds.len(),
        find(h.ps, ds[k]) is Some,
        deact_each(h, ds, j, n, depth).1 is Ok,
    ensures
        state_in(deact_each(h, ds, j, n, depth).0.states, ds[k]) != PluginLifecycleState::Active,
    decreases k - j,
{
    let y = ds[k];
    let hn = if state_in(h.states, ds[j]) == PluginLifecycleState::Active {
        lemma_deact_keeps(h, ds[j], n, depth + 1);
        deact(h, ds[j], n, depth + 1).0
    } else {
        h
    };
    assert(deact_each(h, ds, j, n, depth) == deact_each(hn, ds, j + 1, n, depth));
    if j == k {
        if state_in(h.states, y) == PluginLifecycleState::Active {
            let h2 = deact_each(h, dependents_seq(h.ps, y), 0, n, depth + 1).0;
            lemma_with_state(h2.states, y, PluginLifecycleState::Registered, y);
        }
        lemma_deact_each_keeps_inactive(hn, ds, j + 1, n, depth, y);
    } else {
        lemma_deact_each_reaches(hn, ds, j + 1, k, n, depth);
    }
}

/// A successful deactivation leaves the plugin registered and no plugin that depends on
/// it, directly or transitively, active.
proof fn lemma_deact_cascades(h: HostV, x: Seq<char>, y: Seq<char>)
    requires
        deact(h, x, h.ps.len(), 0).1 is Ok,
        forall|z: Seq<char>| dependents_seq(h.ps, x).contains(z) <==> transitive_dependent(h.ps, x, z),
        transitive_dependent(h.ps, x, y),
    ensures
        state_in(deact(h, x, h.ps.len(), 0).0.states, y) != PluginLifecycleState::Active,
{
    let n = h.ps.len();
    lemma_find_some(h.ps, x);
    let ds = dependents_seq(h.ps, x);
    let h2 = deact_each(h, ds, 0, n, 0).0;
    lemma_td_found(h.ps, x, y);
    assert(ds.contains(y));
    let k = choose|k: int| 0 <= k < ds.len() && ds[k] == y;
    lemma_deact_each_reaches(h, ds, 0, k, n, 0);
    lemma_with_state(h2.states, x, PluginLifecycleState::Registered, y);
}


/// Removing `x` leaves no `x`.
proof fn lemma_without_drops(v: Seq<Seq<char>>, x: Seq<char>)
    ensures
        !without(v, x).contains(x),
{
    let w = without(v, x);
    if w.contains(x) {
        let k = choose|k: int| 0 <= k < w.len() && w[k] == x;
        v.lemma_filter_pred(|y: Seq<char>| y != x, k);
    }
}

/// Activation leaves the disabled list as it was.
proof fn lemma_act_keeps_disabled(h: HostV, x: Seq<char>, n: nat, depth: nat)
    ensures
        act(h, x, n, depth).0.disabled == h.disabled,
    decreases 2 * (n - depth) + 1, 0int,
{
    if depth <= n && !h.disabled.contains(x) {
        if let Some(i) = find(h.ps, x) {
            if h.meta[i].0 {
                lemma_act_deps_keeps_disabled(h, x, h.ps[i].1, 0, n, depth);
            }
        }
    }
}

proof fn lemma_act_deps_keeps_disabled(h: HostV, x: Seq<char>, deps: Seq<Seq<char>>, j: int, n: nat, depth: nat)
    ensures
        act_deps(h, x, deps, j, n, depth).0.disabled == h.disabled,
    decreases 2 * (n - depth), deps.len() - j,
{
    if !(depth >= n || j < 0 || j >= deps.len()) {
        let d = deps[j];
        if h.disabled.contains(d) {
        } else if state_in(h.states, d) != PluginLifecycleState::Active {
            lemma_act_keeps_disabled(h, d, n, depth + 1);
            let (h2, r) = act(h, d, n, depth + 1);
            if r is Ok {
                lemma_act_deps_keeps_disabled(h2, x, deps, j + 1, n, depth);
            }
        } else {
            lemma_act_deps_keeps_disabled(h, x, deps, j + 1, n, depth);
        }
    }
}

/// What the host shows of a plugin (`list_plugins`, `plugin_info`): its id and dependencies,
/// when it is activated, its recorded state, whether it is disabled (by the user, or in the
/// `Disabled` state) and whether it is enabled (not disabled and `Active`).
#[derive(Debug, Clone)]
pub struct PluginDescriptor {
    pub id: String,
    pub depends_on: Vec<String>,
    pub activation: PluginActivation,
    pub state: PluginLifecycleState,
    pub disabled: bool,
    pub enabled: bool,
}

/// A descriptor as values: id, dependencies, activation, state, disabled, enabled.
pub type DescriptorV = (Seq<char>, Seq<Seq<char>>, PluginActivation, PluginLifecycleState, bool, bool);

pub open spec fn descriptor_v(d: PluginDescriptor) -> DescriptorV {
    (d.id@, strs_v(d.depends_on@), d.activation, d.state, d.disabled, d.enabled)
}

/// The descriptor of the `k`-th plugin of `h`.
pub open spec fn descriptor_of(h: HostV, k: int) -> DescriptorV {
    let id = h.ps[k].0;
    let st = state_in(h.states, id);
    let dis = h.disabled.contains(id) || st == PluginLifecycleState::Disabled;
    (id, h.ps[k].1, h.meta[k].1, st, dis, !dis && st == PluginLifecycleState::Active)
}

impl PluginHost {
    fn descriptor_at(&self, k: usize) -> (r: PluginDescriptor)
        requires
            k < self@.ps.len(),
        ensures
            descriptor_v(r) == descriptor_of(self@, k as int),
    {
        proof {
            use_type_invariant(self);
        }
        let p = copy_plugin(&self.discovered[k]);
        assert(self@.ps[k as int] == crate::lifecycle::plugin_v(self.discovered@[k as int]));
        let state = self.state_of(p.id.as_str());
        let disabled = self.is_disabled(p.id.as_str()) || state == PluginLifecycleState::Disabled;
        let enabled = !disabled && state == PluginLifecycleState::Active;
        PluginDescriptor { id: p.id, depends_on: p.depends_on, activation: self.meta[k].1, state, disabled, enabled }
    }

    /// `list_plugins`: the descriptor of every discovered plugin, in discovery order.
    pub fn list_plugins(&self) -> (r: Vec<PluginDescriptor>)
        ensures
            r@.len() == self@.ps.len(),
            forall|k: int| 0 <= k < r@.len() ==> descriptor_v(#[trigger] r@[k]) == descriptor_of(self@, k),
    {
        let mut out: Vec<PluginDescriptor> = Vec::new();
        let mut k: usize = 0;
        while k < self.discovered.len()
            invariant
                0 <= k <= self.discovered.len(),
                self@.ps.len() == self.discovered@.len(),
                out@.len() == k,
                forall|i: int| 0 <= i < k ==> descriptor_v(#[trigger] out@[i]) == descriptor_of(self@, i),
            decreases self.discovered.len() - k,
        {
            out.push(self.descriptor_at(k));
            k += 1;
        }
        out
    }

    /// `plugin_info`: the descriptor of the first plugin with id `plugin_id`, or `NotFound`.
    pub fn plugin_info(&self, plugin_id: &str) -> (r: Result<PluginDescriptor, PluginHostError>)
        ensures
            match find(self@.ps, plugin_id@) {
                Some(k) => r matches Ok(d) && descriptor_v(d) == descriptor_of(self@, k),
                None => r matches Err(PluginHostError::NotFound(s)) && s@ == plugin_id@,
            },
    {
        match self.find_plugin(plugin_id) {
            Some(k) => Ok(self.descriptor_at(k)),
            None => Err(PluginHostError::NotFound(text(plugin_id))),
        }
    }
}

} // verus!
