//! Fixture scopes, the value cache keyed by fixture and scope, and the
//! per-scope finalizer lists that drive teardown in reverse setup order.
//!
//! Guest values are held elsewhere; here a value or a finalizer is a handle
//! number that names it.
use vstd::prelude::*;
use vstd::string::*;

verus! {

/// How long a fixture's value lives. Scopes are ordered
/// `Function < Module < Package < Session`.
#[derive(Copy, Clone, Debug, PartialEq, Eq, Structural)]
pub enum FixtureScope {
    Function,
    Module,
    Package,
    Session,
}

impl FixtureScope {
    pub open spec fn spec_rank(self) -> int {
        match self {
            FixtureScope::Function => 0,
            FixtureScope::Module => 1,
            FixtureScope::Package => 2,
            FixtureScope::Session => 3,
        }
    }

    /// The position of the scope in the order of scopes.
    pub fn rank(self) -> (r: u8)
        ensures
            r as int == self.spec_rank(),
    {
        match self {
            FixtureScope::Function => 0,
            FixtureScope::Module => 1,
            FixtureScope::Package => 2,
            FixtureScope::Session => 3,
        }
    }

    /// A fixture of this scope may depend on one of scope `dependency` only
    /// when that scope lives at least as long.
    pub fn may_depend_on(self, dependency: FixtureScope) -> (r: bool)
        ensures
            r == (dependency.spec_rank() >= self.spec_rank()),
    {
        dependency.rank() >= self.rank()
    }
}

/// One cached value: the fixture's name, its scope and the value's handle.
pub struct CacheEntry {
    pub name: String,
    pub scope: FixtureScope,
    pub value: u64,
}

/// A cache entry as plain values.
pub type EntryView = (Seq<char>, FixtureScope, u64);

/// The value cached for `(name, scope)`: the latest one stored.
pub open spec fn lookup(entries: Seq<EntryView>, name: Seq<char>, scope: FixtureScope) -> Option<u64>
    decreases entries.len(),
{
    if entries.len() == 0 {
        None
    } else if entries.last().0 == name && entries.last().1 == scope {
        Some(entries.last().2)
    } else {
        lookup(entries.drop_last(), name, scope)
    }
}

/// The entries not of scope `scope`, in order.
pub open spec fn without_scope(entries: Seq<EntryView>, scope: FixtureScope) -> Seq<EntryView>
    decreases entries.len(),
{
    if entries.len() == 0 {
        seq![]
    } else if entries.last().1 == scope {
        without_scope(entries.drop_last(), scope)
    } else {
        without_scope(entries.drop_last(), scope).push(entries.last())
    }
}

/// Fixture values cached by `(name, scope)`, reused within the scope's span.
pub struct FixtureCache {
    pub entries: Vec<CacheEntry>,
}

impl FixtureCache {
    pub open spec fn view(&self) -> Seq<EntryView> {
        self.entries@.map_values(|e: CacheEntry| (e.name@, e.scope, e.value))
    }

    pub fn new() -> (r: Self)
        ensures
            r.view() == Seq::<EntryView>::empty(),
    {
        let r = FixtureCache { entries: Vec::new() };
        assert(r.view() =~= Seq::<EntryView>::empty());
        r
    }

    /// The cached value of the fixture `name` at `scope`.
    pub fn get(&self, name: &String, scope: FixtureScope) -> (r: Option<u64>)
        ensures
            r == lookup(self.view(), name@, scope),
    {
        let mut i = self.entries.len();
        assert(self.view().take(i as int) =~= self.view());
        while i > 0
            invariant
                i <= self.entries@.len(),
                lookup(self.view().take(i as int), name@, scope) == lookup(
                    self.view(),
                    name@,
                    scope,
                ),
            decreases i,
        {
            let e = &self.entries[i - 1];
            proof {
                assert(self.view().take(i as int).drop_last() =~= self.view().take(i - 1));
            }
            if e.name == *name && e.scope == scope {
                return Some(e.value);
            }
            i = i - 1;
        }
        proof {
            assert(self.view().take(0) =~= Seq::<EntryView>::empty());
        }
        None
    }

    /// Stores the value of the fixture `name` at `scope`.
    pub fn insert(&mut self, name: String, value: u64, scope: FixtureScope)
        ensures
            final(self).view() == old(self).view().push((name@, scope, value)),
    {
        let ghost n = name@;
        self.entries.push(CacheEntry { name, scope, value });
        proof {
            assert(self.view() =~= old(self).view().push((n, scope, value)));
        }
    }

    /// Forgets every value of scope `scope`.
    pub fn clear_fixtures(&mut self, scope: FixtureScope)
        ensures
            final(self).view() == without_scope(old(self).view(), scope),
    {
        let mut kept: Vec<CacheEntry> = Vec::new();
        let ghost all = self.view();
        let mut taken: Vec<CacheEntry> = Vec::new();
        std::mem::swap(&mut taken, &mut self.entries);
        let ghost src = taken@;
        assert(all == src.map_values(|e: CacheEntry| (e.name@, e.scope, e.value)));
        let mut i: usize = 0;
        let n = taken.len();
        while taken.len() > 0
            invariant
                n == src.len(),
                taken@ == src.skip(i as int),
                i + taken@.len() == n,
                kept@.map_values(|e: CacheEntry| (e.name@, e.scope, e.value)) == without_scope(
                    all.take(i as int),
                    scope,
                ),
                all == src.map_values(|e: CacheEntry| (e.name@, e.scope, e.value)),
            decreases taken@.len(),
        {
            let e = taken.remove(0);
            proof {
                assert(e == src[i as int]);
                assert(all.take(i + 1).drop_last() =~= all.take(i as int));
                assert(taken@ =~= src.skip(i + 1));
            }
            let ghost before = kept@;
            if e.scope != scope {
                kept.push(e);
                proof {
                    assert(kept@.map_values(|e: CacheEntry| (e.name@, e.scope, e.value))
                        =~= before.map_values(|e: CacheEntry| (e.name@, e.scope, e.value)).push(
                        all[i as int],
                    ));
                }
            }
            i = i + 1;
        }
        proof {
            assert(all.take(i as int) =~= all);
        }
        self.entries = kept;
    }
}

/// A deferred teardown: the handle to advance once more, the scope whose end
/// runs it, and the fixture it belongs to.
#[derive(Copy, Clone, Debug, PartialEq, Eq, Structural)]
pub struct Finalizer {
    pub handle: u64,
    pub scope: FixtureScope,
    pub fixture: u64,
}

/// The finalizers of scope `scope` in the order their setups completed.
pub open spec fn setup_order(fs: Seq<Finalizer>, scope: FixtureScope) -> Seq<Finalizer>
    decreases fs.len(),
{
    if fs.len() == 0 {
        seq![]
    } else if fs.last().scope == scope {
        setup_order(fs.drop_last(), scope).push(fs.last())
    } else {
        setup_order(fs.drop_last(), scope)
    }
}

/// The finalizers of scope `scope` in the order teardown runs them: the
/// latest setup first.
pub open spec fn teardown_order(fs: Seq<Finalizer>, scope: FixtureScope) -> Seq<Finalizer>
    decreases fs.len(),
{
    if fs.len() == 0 {
        seq![]
    } else if fs.last().scope == scope {
        seq![fs.last()] + teardown_order(fs.drop_last(), scope)
    } else {
        teardown_order(fs.drop_last(), scope)
    }
}

/// The finalizers of other scopes, in order.
pub open spec fn other_scopes(fs: Seq<Finalizer>, scope: FixtureScope) -> Seq<Finalizer>
    decreases fs.len(),
{
    if fs.len() == 0 {
        seq![]
    } else if fs.last().scope == scope {
        other_scopes(fs.drop_last(), scope)
    } else {
        other_scopes(fs.drop_last(), scope).push(fs.last())
    }
}

/// Finalizers waiting for the end of their scope.
pub struct FinalizerCache {
    pub finalizers: Vec<Finalizer>,
}

impl FinalizerCache {
    pub fn new() -> (r: Self)
        ensures
            r.finalizers@ == Seq::<Finalizer>::empty(),
    {
        FinalizerCache { finalizers: Vec::new() }
    }

    /// Records a finalizer when its fixture's setup completes.
    pub fn add_finalizer(&mut self, f: Finalizer)
        ensures
            final(self).finalizers@ == old(self).finalizers@.push(f),
    {
        self.finalizers.push(f);
    }

    /// Removes the finalizers of `scope` and returns them in the order they
    /// are to run: the reverse of the order their setups completed.
    pub fn take_scope(&mut self, scope: FixtureScope) -> (r: Vec<Finalizer>)
        ensures
            r@ == teardown_order(old(self).finalizers@, scope),
            final(self).finalizers@ == other_scopes(old(self).finalizers@, scope),
    {
        let ghost all = self.finalizers@;
        let mut run: Vec<Finalizer> = Vec::new();
        let mut kept: Vec<Finalizer> = Vec::new();
        let n = self.finalizers.len();
        let mut i: usize = 0;
        while i < n
            invariant
                n == all.len(),
                self.finalizers@ == all,
                i <= n,
                kept@ == other_scopes(all.take(i as int), scope),
            decreases n - i,
        {
            let f = self.finalizers[i];
            proof {
                assert(all.take(i + 1).drop_last() =~= all.take(i as int));
            }
            if f.scope != scope {
                kept.push(f);
            }
            i = i + 1;
        }
        let mut j = n;
        assert(all.take(n as int) =~= all);
        assert(run@ + teardown_order(all, scope) =~= teardown_order(all, scope));
        while j > 0
            invariant
                n == all.len(),
                self.finalizers@ == all,
                j <= n,
                run@ + teardown_order(all.take(j as int), scope) == teardown_order(all, scope),
            decreases j,
        {
            let f = self.finalizers[j - 1];
            proof {
                assert(all.take(j as int).drop_last() =~= all.take(j - 1));
                assert(all.take(n as int) =~= all);
            }
            if f.scope == scope {
                let ghost before = run@;
                run.push(f);
                proof {
                    assert(before + teardown_order(all.take(j as int), scope) =~= run@
                        + teardown_order(all.take(j - 1), scope));
                }
            }
            j = j - 1;
        }
        proof {
            assert(all.take(i as int) =~= all);
            assert(all.take(0) =~= Seq::<Finalizer>::empty());
            assert(run@ =~= teardown_order(all, scope));
        }
        self.finalizers = kept;
        run
    }
}

/// Teardown runs the finalizers of a scope in exactly the reverse order of
/// their setup completions.
pub proof fn law_teardown_is_lifo(fs: Seq<Finalizer>, scope: FixtureScope)
    ensures
        teardown_order(fs, scope) == setup_order(fs, scope).reverse(),
    decreases fs.len(),
{
    if fs.len() > 0 {
        law_teardown_is_lifo(fs.drop_last(), scope);
        if fs.last().scope == scope {
            assert(seq![fs.last()] + setup_order(fs.drop_last(), scope).reverse() =~= setup_order(
                fs.drop_last(),
                scope,
            ).push(fs.last()).reverse());
        }
    }
}

/// A step of a run as the value cache sees it: a fixture `name` of the
/// given scope is needed (`Some((name, value))`, with the value a call would
/// produce), or the given scope ends (`None`).
pub type CacheEvent = (Option<(Seq<char>, u64)>, FixtureScope);

/// The cache after a fixture is needed: a cached value is reused, otherwise
/// the fixture is called and its value stored.
pub open spec fn after_use(entries: Seq<EntryView>, name: Seq<char>, scope: FixtureScope, value: u64) -> Seq<
    EntryView,
> {
    if lookup(entries, name, scope) is Some {
        entries
    } else {
        entries.push((name, scope, value))
    }
}

/// How many times the fixture `name` of scope `scope` is called over the
/// steps `events`, starting from the cache `entries`.
pub open spec fn calls_of(
    entries: Seq<EntryView>,
    events: Seq<CacheEvent>,
    name: Seq<char>,
    scope: FixtureScope,
) -> nat
    decreases events.len(),
{
    if events.len() == 0 {
        0
    } else {
        let ev = events[0];
        match ev.0 {
            None => calls_of(without_scope(entries, ev.1), events.drop_first(), name, scope),
            Some((n, v)) => (if n == name && ev.1 == scope && lookup(entries, n, ev.1) is None {
                1nat
            } else {
                0nat
            }) + calls_of(after_use(entries, n, ev.1, v), events.drop_first(), name, scope),
        }
    }
}

proof fn lemma_lookup_kept(entries: Seq<EntryView>, name: Seq<char>, scope: FixtureScope, other: FixtureScope)
    requires
        other != scope,
    ensures
        lookup(without_scope(entries, other), name, scope) == lookup(entries, name, scope),
    decreases entries.len(),
{
    if entries.len() > 0 {
        lemma_lookup_kept(entries.drop_last(), name, scope, other);
        if entries.last().1 != other {
            assert(without_scope(entries, other).drop_last() =~= without_scope(
                entries.drop_last(),
                other,
            ));
        }
    }
}

proof fn lemma_lookup_after_use(
    entries: Seq<EntryView>,
    n: Seq<char>,
    s: FixtureScope,
    v: u64,
    name: Seq<char>,
    scope: FixtureScope,
)
    requires
        lookup(entries, name, scope) is Some || (n == name && s == scope),
    ensures
        lookup(after_use(entries, n, s, v), name, scope) is Some,
{
    if lookup(entries, n, s) is None {
        assert(entries.push((n, s, v)).drop_last() =~= entries);
    }
}

/// Within the span of a scope, a fixture of that scope is called at most
/// once, however many tests need it; not at all when its value is cached.
pub proof fn law_fixture_called_at_most_once(
    entries: Seq<EntryView>,
    events: Seq<CacheEvent>,
    name: Seq<char>,
    scope: FixtureScope,
)
    requires
        forall|i: int| 0 <= i < events.len() && (#[trigger] events[i]).0 is None ==> events[i].1 != scope,
    ensures
        calls_of(entries, events, name, scope) <= 1,
        lookup(entries, name, scope) is Some ==> calls_of(entries, events, name, scope) == 0,
    decreases events.len(),
{
    if events.len() > 0 {
        let ev = events[0];
        let rest = events.drop_first();
        assert forall|i: int| 0 <= i < rest.len() && (#[trigger] rest[i]).0 is None implies rest[i].1
            != scope by {
            assert(rest[i] == events[i + 1]);
        }
        match ev.0 {
            None => {
                lemma_lookup_kept(entries, name, scope, ev.1);
                law_fixture_called_at_most_once(without_scope(entries, ev.1), rest, name, scope);
            },
            Some((n, v)) => {
                let next = after_use(entries, n, ev.1, v);
                law_fixture_called_at_most_once(next, rest, name, scope);
                if lookup(entries, name, scope) is Some || (n == name && ev.1 == scope) {
                    lemma_lookup_after_use(entries, n, ev.1, v, name, scope);
                }
            },
        }
    }
}

impl FinalizerCache {
    /// Files the finalizer of a fixture whose setup just completed: one of
    /// function scope is handed back to run right after the test; any other
    /// waits for the end of its scope.
    pub fn route_finalizer(&mut self, f: Finalizer) -> (r: Option<Finalizer>)
        ensures
            (r, final(self).finalizers@) == routed(old(self).finalizers@, f),
            f.scope == FixtureScope::Function ==> r == Some(f) && final(self).finalizers@ == old(
                self,
            ).finalizers@,
            f.scope != FixtureScope::Function ==> r is None && final(self).finalizers@ == old(
                self,
            ).finalizers@.push(f),
    {
        if f.scope == FixtureScope::Function {
            Some(f)
        } else {
            self.finalizers.push(f);
            None
        }
    }
}

/// Where a finalizer goes when its fixture's setup completes: handed back
/// to run right after the test (function scope), or added to the list of
/// its scope.
pub open spec fn routed(fs: Seq<Finalizer>, f: Finalizer) -> (Option<Finalizer>, Seq<Finalizer>) {
    if f.scope == FixtureScope::Function {
        (Some(f), fs)
    } else {
        (None, fs.push(f))
    }
}

proof fn lemma_teardown_from(fs: Seq<Finalizer>, scope: FixtureScope, x: Finalizer)
    ensures
        teardown_order(fs, scope).contains(x) ==> fs.contains(x),
    decreases fs.len(),
{
    if fs.len() > 0 {
        lemma_teardown_from(fs.drop_last(), scope, x);
        let rest = teardown_order(fs.drop_last(), scope);
        if teardown_order(fs, scope).contains(x) {
            let i = choose|i: int|
                0 <= i < teardown_order(fs, scope).len() && #[trigger] teardown_order(fs, scope)[i]
                    == x;
            if fs.last().scope == scope && i == 0 {
                assert(fs[fs.len() - 1] == x);
            } else {
                let j = if fs.last().scope == scope {
                    i - 1
                } else {
                    i
                };
                assert(rest[j] == x);
                let k = choose|k: int| 0 <= k < fs.drop_last().len() && #[trigger] fs.drop_last()[k]
                    == x;
                assert(fs[k] == x);
            }
        }
    }
}

/// A finalizer set up once runs once: a function-scope one is handed back
/// to run after the test and never waits in a scope's list; any other waits
/// in its own scope's list, runs first at that scope's end, and in no other
/// scope's teardown.
pub proof fn law_finalizer_runs_once(fs: Seq<Finalizer>, f: Finalizer, s: FixtureScope)
    requires
        !fs.contains(f),
    ensures
        f.scope == FixtureScope::Function ==> routed(fs, f).0 == Some(f) && !teardown_order(
            routed(fs, f).1,
            s,
        ).contains(f),
        f.scope != FixtureScope::Function ==> {
            &&& routed(fs, f).0 is None
            &&& teardown_order(routed(fs, f).1, f.scope) == seq![f] + teardown_order(fs, f.scope)
            &&& !teardown_order(fs, f.scope).contains(f)
            &&& s != f.scope ==> !teardown_order(routed(fs, f).1, s).contains(f)
        },
{
    lemma_teardown_from(fs, s, f);
    lemma_teardown_from(fs, f.scope, f);
    if f.scope != FixtureScope::Function {
        assert(fs.push(f).drop_last() =~= fs);
        assert(fs.push(f).last() == f);
    }
}

/// How a fixture's returned value is turned into its value and finalizer.
#[derive(Copy, Clone, Debug, PartialEq, Eq, Structural)]
pub enum SetupKind {
    /// An async generator: await its first item; the generator is the
    /// finalizer.
    AsyncGenerator,
    /// A generator: advance it once; it is the finalizer.
    Generator,
    /// A built-in with a finalizer callable: wrap both, advance once.
    BuiltInWithFinalizer,
    /// The value as returned, without a finalizer.
    Plain,
}

/// Chooses how a fixture's result is post-processed: from whether it is
/// user-defined, a generator, declared async, and (for a built-in) whether
/// it carries a finalizer.
pub fn setup_kind(user_defined: bool, is_generator: bool, is_async: bool, has_finalizer: bool) -> (r:
    SetupKind)
    ensures
        r == if user_defined && is_generator && is_async {
            SetupKind::AsyncGenerator
        } else if user_defined && is_generator {
            SetupKind::Generator
        } else if !user_defined && has_finalizer {
            SetupKind::BuiltInWithFinalizer
        } else {
            SetupKind::Plain
        },
{
    if user_defined && is_generator && is_async {
        SetupKind::AsyncGenerator
    } else if user_defined && is_generator {
        SetupKind::Generator
    } else if !user_defined && has_finalizer {
        SetupKind::BuiltInWithFinalizer
    } else {
        SetupKind::Plain
    }
}

/// Whether a fixture call's result must be run to completion as a
/// coroutine: an async fixture that is not a generator.
pub fn awaits_result(user_defined: bool, is_generator: bool, is_async: bool) -> (r: bool)
    ensures
        r == (user_defined && is_async && !is_generator),
{
    user_defined && is_async && !is_generator
}

/// What advancing a finalizer once more did.
pub enum TeardownStep {
    /// The generator was exhausted: teardown succeeded.
    Exhausted,
    /// It yielded a second value.
    YieldedAgain,
    /// It raised an error, with the error's message.
    Raised(String),
}

/// The diagnostic for a teardown step, if any: a second yield, or an error,
/// are reported; the rest of teardown goes on either way.
pub fn teardown_problem(step: TeardownStep) -> (r: Option<String>)
    ensures
        match step {
            TeardownStep::Exhausted => r is None,
            TeardownStep::YieldedAgain => r matches Some(m) && m@
                == "Fixture had more than one yield statement"@,
            TeardownStep::Raised(e) => r matches Some(m) && m@ == "Failed to reset fixture: "@
                + e@,
        },
{
    match step {
        TeardownStep::Exhausted => None,
        TeardownStep::YieldedAgain => Some(String::from_str("Fixture had more than one yield statement")),
        TeardownStep::Raised(e) => {
            let mut m = String::from_str("Failed to reset fixture: ");
            m.append(e.as_str());
            Some(m)
        },
    }
}

/// The cache steps of `n` variants that each need the function-scope
/// fixture `name` (a call would give `value`) and then end their function
/// scope.
pub open spec fn variant_events(name: Seq<char>, value: u64, n: nat) -> Seq<CacheEvent>
    decreases n,
{
    if n == 0 {
        seq![]
    } else {
        seq![
            (Some((name, value)), FixtureScope::Function),
            (None, FixtureScope::Function),
        ] + variant_events(name, value, (n - 1) as nat)
    }
}

proof fn lemma_cleared_scope(entries: Seq<EntryView>, name: Seq<char>, scope: FixtureScope)
    ensures
        lookup(without_scope(entries, scope), name, scope) is None,
    decreases entries.len(),
{
    if entries.len() > 0 {
        lemma_cleared_scope(entries.drop_last(), name, scope);
        if entries.last().1 != scope {
            assert(without_scope(entries, scope).drop_last() =~= without_scope(
                entries.drop_last(),
                scope,
            ));
        }
    }
}

/// A function-scope fixture is called once for every variant that needs
/// it: its value does not outlive the variant.
pub proof fn law_function_fixture_once_per_variant(
    entries: Seq<EntryView>,
    name: Seq<char>,
    value: u64,
    n: nat,
)
    requires
        lookup(entries, name, FixtureScope::Function) is None,
    ensures
        calls_of(entries, variant_events(name, value, n), name, FixtureScope::Function) == n,
    decreases n,
{
    if n > 0 {
        let ev = variant_events(name, value, n);
        let after = after_use(entries, name, FixtureScope::Function, value);
        let rest = variant_events(name, value, (n - 1) as nat);
        assert(ev.drop_first() =~= seq![(None::<(Seq<char>, u64)>, FixtureScope::Function)] + rest);
        assert((seq![(None::<(Seq<char>, u64)>, FixtureScope::Function)] + rest).drop_first()
            =~= rest);
        lemma_cleared_scope(after, name, FixtureScope::Function);
        let ev2 = ev.drop_first();
        assert(ev[0] == (Some((name, value)), FixtureScope::Function));
        assert(calls_of(entries, ev, name, FixtureScope::Function) == 1 + calls_of(
            after,
            ev2,
            name,
            FixtureScope::Function,
        ));
        assert(ev2[0] == (None::<(Seq<char>, u64)>, FixtureScope::Function));
        assert(calls_of(after, ev2, name, FixtureScope::Function) == calls_of(
            without_scope(after, FixtureScope::Function),
            rest,
            name,
            FixtureScope::Function,
        ));
        law_function_fixture_once_per_variant(
            without_scope(after, FixtureScope::Function),
            name,
            value,
            (n - 1) as nat,
        );
    }
}

/// What advancing a generator fixture the first time did.
pub enum FirstStep {
    /// It yielded a value.
    Yielded(u64),
    /// It finished without yielding.
    Exhausted,
    /// It raised an error, with the error's message.
    Raised(String),
}

/// Why a fixture's setup failed.
pub enum SetupError {
    /// The generator finished before yielding.
    YieldedNoValue,
    /// The fixture raised an error, with its message.
    Raised(String),
}

/// The value and finalizer a generator fixture provides after its first
/// step: the yielded value, with the generator `handle` as the finalizer of
/// the fixture's scope; or the error.
pub fn generator_setup(step: FirstStep, handle: u64, scope: FixtureScope, fixture: u64) -> (r: Result<
    (u64, Finalizer),
    SetupError,
>)
    ensures
        match step {
            FirstStep::Yielded(v) => r matches Ok((x, f)) && x == v && f == (Finalizer {
                handle,
                scope,
                fixture,
            }),
            FirstStep::Exhausted => r matches Err(SetupError::YieldedNoValue),
            FirstStep::Raised(e) => r matches Err(SetupError::Raised(m)) && m == e,
        },
{
    match step {
        FirstStep::Yielded(v) => Ok((v, Finalizer { handle, scope, fixture })),
        FirstStep::Exhausted => Err(SetupError::YieldedNoValue),
        FirstStep::Raised(e) => Err(SetupError::Raised(e)),
    }
}

/// The function-scope finalizers of a variant in the order they run after
/// the test: the reverse of their setup order.
pub fn variant_teardown_order(fs: &Vec<Finalizer>) -> (r: Vec<Finalizer>)
    ensures
        r@ == fs@.reverse(),
{
    let mut out: Vec<Finalizer> = Vec::new();
    let mut i = fs.len();
    while i > 0
        invariant
            i <= fs@.len(),
            out@ == fs@.subrange(i as int, fs@.len() as int).reverse(),
        decreases i,
    {
        let ghost before = out@;
        out.push(fs[i - 1]);
        proof {
            assert(fs@.subrange(i - 1, fs@.len() as int).reverse() =~= before.push(fs@[i - 1]));
        }
        i = i - 1;
    }
    proof {
        assert(fs@.subrange(0, fs@.len() as int) =~= fs@);
    }
    out
}

/// A named argument for a call, as plain values.
pub type ArgView = (Seq<char>, u64);

pub open spec fn args_view(v: Seq<(String, u64)>) -> Seq<ArgView> {
    v.map_values(|a: (String, u64)| (a.0@, a.1))
}

/// Whether `name` is among the arguments.
pub open spec fn has_arg(args: Seq<ArgView>, name: Seq<char>) -> bool {
    exists|i: int| 0 <= i < args.len() && (#[trigger] args[i]).0 == name
}

/// The fixture arguments whose names no parametrize value takes.
pub open spec fn not_overridden(fixtures: Seq<ArgView>, params: Seq<ArgView>) -> Seq<ArgView>
    decreases fixtures.len(),
{
    if fixtures.len() == 0 {
        seq![]
    } else if has_arg(params, fixtures.last().0) {
        not_overridden(fixtures.drop_last(), params)
    } else {
        not_overridden(fixtures.drop_last(), params).push(fixtures.last())
    }
}

/// The value an argument list gives `name`: the last one named so.
pub open spec fn arg_value(args: Seq<ArgView>, name: Seq<char>) -> Option<u64>
    decreases args.len(),
{
    if args.len() == 0 {
        None
    } else if args.last().0 == name {
        Some(args.last().1)
    } else {
        arg_value(args.drop_last(), name)
    }
}

/// The arguments of a test call: the fixture values, except where a
/// parametrize row gives a value of the same name, then the row's values.
pub fn call_arguments(fixtures: Vec<(String, u64)>, params: Vec<(String, u64)>) -> (r: Vec<
    (String, u64),
>)
    ensures
        args_view(r@) == not_overridden(args_view(fixtures@), args_view(params@)) + args_view(
            params@,
        ),
{
    let ghost fv = args_view(fixtures@);
    let ghost pv = args_view(params@);
    let mut out: Vec<(String, u64)> = Vec::new();
    let mut rest = fixtures;
    let ghost src = rest@;
    let n = rest.len();
    let mut i: usize = 0;
    while rest.len() > 0
        invariant
            n == src.len(),
            fv == args_view(src),
            pv == args_view(params@),
            rest@ == src.skip(i as int),
            i + rest@.len() == n,
            args_view(out@) == not_overridden(fv.take(i as int), pv),
        decreases rest@.len(),
    {
        let a = rest.remove(0);
        proof {
            assert(a == src[i as int]);
            assert(fv.take(i + 1).drop_last() =~= fv.take(i as int));
            assert(fv.take(i + 1).last() == (a.0@, a.1));
            assert(rest@ =~= src.skip(i + 1));
        }
        let mut taken = false;
        let mut j: usize = 0;
        while j < params.len()
            invariant
                j <= params@.len(),
                pv == args_view(params@),
                taken == exists|k: int| 0 <= k < j && (#[trigger] pv[k]).0 == a.0@,
            decreases params@.len() - j,
        {
            if params[j].0 == a.0 {
                taken = true;
            }
            proof {
                assert(pv[j as int] == (params@[j as int].0@, params@[j as int].1));
            }
            j = j + 1;
        }
        let ghost before = out@;
        if !taken {
            out.push(a);
            proof {
                assert(args_view(out@) =~= args_view(before).push(fv.take(i + 1).last()));
            }
        }
        i = i + 1;
    }
    proof {
        assert(fv.take(i as int) =~= fv);
    }
    let mut k: usize = 0;
    let ghost base = out@;
    while k < params.len()
        invariant
            k <= params@.len(),
            pv == args_view(params@),
            args_view(out@) == args_view(base) + pv.take(k as int),
        decreases params@.len() - k,
    {
        let p = &params[k];
        let name = p.0.clone();
        let ghost before = out@;
        out.push((name, p.1));
        proof {
            assert(pv[k as int] == (p.0@, p.1));
            assert(args_view(out@) =~= args_view(before).push(pv[k as int]));
            assert(pv.take(k + 1) =~= pv.take(k as int).push(pv[k as int]));
            assert(args_view(out@) =~= args_view(base) + pv.take(k + 1));
        }
        k = k + 1;
    }
    proof {
        assert(pv.take(k as int) =~= pv);
    }
    out
}

proof fn lemma_arg_value_not_overridden(fixtures: Seq<ArgView>, params: Seq<ArgView>, name: Seq<char>)
    requires
        !has_arg(params, name),
    ensures
        arg_value(not_overridden(fixtures, params), name) == arg_value(fixtures, name),
    decreases fixtures.len(),
{
    if fixtures.len() > 0 {
        lemma_arg_value_not_overridden(fixtures.drop_last(), params, name);
        let rest = not_overridden(fixtures.drop_last(), params);
        if !has_arg(params, fixtures.last().0) {
            assert(rest.push(fixtures.last()).drop_last() =~= rest);
        }
    }
}

proof fn lemma_arg_value_concat(a: Seq<ArgView>, b: Seq<ArgView>, name: Seq<char>)
    ensures
        arg_value(a + b, name) == match arg_value(b, name) {
            Some(v) => Some(v),
            None => arg_value(a, name),
        },
    decreases b.len(),
{
    if b.len() == 0 {
        assert(a + b =~= a);
    } else {
        assert((a + b).drop_last() =~= a + b.drop_last());
        lemma_arg_value_concat(a, b.drop_last(), name);
    }
}

proof fn lemma_arg_value_has(args: Seq<ArgView>, name: Seq<char>)
    ensures
        arg_value(args, name) is Some <==> has_arg(args, name),
    decreases args.len(),
{
    if args.len() > 0 {
        lemma_arg_value_has(args.drop_last(), name);
        if has_arg(args, name) && args.last().0 != name {
            let i = choose|i: int| 0 <= i < args.len() && (#[trigger] args[i]).0 == name;
            assert(args.drop_last()[i] == args[i]);
        }
        if has_arg(args.drop_last(), name) {
            let i = choose|i: int| 0 <= i < args.drop_last().len() && (#[trigger] args.drop_last()[i]).0
                == name;
            assert(args[i] == args.drop_last()[i]);
        }
        if args.last().0 == name {
            assert(args[args.len() - 1].0 == name);
        }
    }
}

/// A parametrize value overrides a fixture of the same name: in the
/// arguments of the call each name has the row's value when the row gives
/// one, and otherwise the fixture's.
pub proof fn law_parameter_overrides_fixture(
    fixtures: Seq<ArgView>,
    params: Seq<ArgView>,
    name: Seq<char>,
)
    ensures
        arg_value(not_overridden(fixtures, params) + params, name) == match arg_value(params, name) {
            Some(v) => Some(v),
            None => arg_value(fixtures, name),
        },
{
    lemma_arg_value_concat(not_overridden(fixtures, params), params, name);
    lemma_arg_value_has(params, name);
    if arg_value(params, name) is None {
        lemma_arg_value_not_overridden(fixtures, params, name);
    }
}

/// A fixture to set up: its name, its scope, and whether it is defined by
/// the user (only those values are cached).
pub struct FixtureRef {
    pub name: String,
    pub scope: FixtureScope,
    pub user_defined: bool,
}

pub open spec fn fixture_view(f: FixtureRef) -> (Seq<char>, FixtureScope, bool) {
    (f.name@, f.scope, f.user_defined)
}

/// The arguments that cached values give dependencies `from..to` of `deps`.
pub open spec fn cached_args(
    entries: Seq<EntryView>,
    deps: Seq<FixtureRef>,
    from: int,
    to: int,
) -> Seq<ArgView>
    decreases to - from,
{
    if to <= from {
        seq![]
    } else {
        cached_args(entries, deps, from, to - 1).push(
            (deps[to - 1].name@, lookup(entries, deps[to - 1].name@, deps[to - 1].scope).unwrap()),
        )
    }
}

/// What setting up a fixture's dependencies asks for next.
#[derive(Copy, Clone, Debug, PartialEq, Eq, Structural)]
pub enum SetupAction {
    /// Call the dependency at this index.
    Call(usize),
    /// Every dependency has its value.
    Done,
    /// A dependency failed: the fixture fails with it.
    Failed,
}

/// Setting up a fixture's dependencies in order: cached values are reused,
/// the others are called one at a time, and the first failure stops it.
pub struct DependencySetup {
    pub deps: Vec<FixtureRef>,
    /// The first dependency without a value yet.
    pub next: usize,
    pub failed: bool,
    /// The values obtained so far, by dependency name.
    pub arguments: Vec<(String, u64)>,
}

impl DependencySetup {
    pub fn new(deps: Vec<FixtureRef>) -> (r: Self)
        ensures
            r.deps@ == deps@,
            r.next == 0,
            !r.failed,
            r.arguments@.len() == 0,
    {
        DependencySetup { deps, next: 0, failed: false, arguments: Vec::new() }
    }

    /// Takes the cached values of the next dependencies, then says what to
    /// do: call the first one without a cached value, or finish.
    pub fn step(&mut self, cache: &FixtureCache) -> (r: SetupAction)
        requires
            old(self).next <= old(self).deps@.len(),
        ensures
            final(self).deps@ == old(self).deps@,
            final(self).failed == old(self).failed,
            old(self).failed ==> r == SetupAction::Failed && final(self).next == old(self).next
                && final(self).arguments@ == old(self).arguments@,
            !old(self).failed ==> {
                &&& old(self).next <= final(self).next <= final(self).deps@.len()
                &&& forall|k: int|
                    old(self).next <= k < final(self).next ==> lookup(
                        cache.view(),
                        (#[trigger] final(self).deps@[k]).name@,
                        final(self).deps@[k].scope,
                    ) is Some
                &&& args_view(final(self).arguments@) == args_view(old(self).arguments@)
                    + cached_args(
                    cache.view(),
                    final(self).deps@,
                    old(self).next as int,
                    final(self).next as int,
                )
                &&& final(self).next < final(self).deps@.len() ==> lookup(
                    cache.view(),
                    final(self).deps@[final(self).next as int].name@,
                    final(self).deps@[final(self).next as int].scope,
                ) is None && r == SetupAction::Call(final(self).next)
                &&& final(self).next == final(self).deps@.len() ==> r == SetupAction::Done
            },
    {
        if self.failed {
            return SetupAction::Failed;
        }
        let ghost start = self.next;
        let ghost args0 = self.arguments@;
        while self.next < self.deps.len()
            invariant
                self.deps@ == old(self).deps@,
                !self.failed,
                !old(self).failed,
                start == old(self).next,
                args0 == old(self).arguments@,
                start <= self.next <= self.deps@.len(),
                forall|k: int|
                    start <= k < self.next ==> lookup(
                        cache.view(),
                        (#[trigger] self.deps@[k]).name@,
                        self.deps@[k].scope,
                    ) is Some,
                args_view(self.arguments@) == args_view(args0) + cached_args(
                    cache.view(),
                    self.deps@,
                    start as int,
                    self.next as int,
                ),
            decreases self.deps@.len() - self.next,
        {
            let i = self.next;
            match cache.get(&self.deps[i].name, self.deps[i].scope) {
                Some(v) => {
                    let name = self.deps[i].name.clone();
                    let ghost before = self.arguments@;
                    self.arguments.push((name, v));
                    proof {
                        assert(args_view(self.arguments@) =~= args_view(before).push(
                            (self.deps@[i as int].name@, v),
                        ));
                    }
                    self.next = i + 1;
                },
                None => {
                    return SetupAction::Call(i);
                },
            }
        }
        SetupAction::Done
    }

    /// Records the outcome of calling the dependency at `next`: its value
    /// becomes an argument (and is cached when the fixture is the user's),
    /// its finalizer waits for the end of its scope; or the setup fails.
    pub fn record(
        &mut self,
        cache: &mut FixtureCache,
        finalizers: &mut FinalizerCache,
        result: Result<(u64, Option<Finalizer>), SetupError>,
    )
        requires
            !old(self).failed,
            old(self).next < old(self).deps@.len(),
        ensures
            final(self).deps@ == old(self).deps@,
            ({
                let d = old(self).deps@[old(self).next as int];
                match result {
                    Ok((v, f)) => {
                        &&& !final(self).failed
                        &&& final(self).next == old(self).next + 1
                        &&& args_view(final(self).arguments@) == args_view(old(self).arguments@).push(
                            (d.name@, v),
                        )
                        &&& final(cache).view() == if d.user_defined {
                            old(cache).view().push((d.name@, d.scope, v))
                        } else {
                            old(cache).view()
                        }
                        &&& final(finalizers).finalizers@ == match f {
                            Some(g) => old(finalizers).finalizers@.push(g),
                            None => old(finalizers).finalizers@,
                        }
                    },
                    Err(_) => {
                        &&& final(self).failed
                        &&& final(self).next == old(self).next
                        &&& final(self).arguments@ == old(self).arguments@
                        &&& final(cache).view() == old(cache).view()
                        &&& final(finalizers).finalizers@ == old(finalizers).finalizers@
                    },
                }
            }),
    {
        match result {
            Ok((v, f)) => {
                let i = self.next;
                let n = self.deps.len();
                assert(i < n);
                if self.deps[i].user_defined {
                    cache.insert(self.deps[i].name.clone(), v, self.deps[i].scope);
                }
                let name = self.deps[i].name.clone();
                let ghost before = self.arguments@;
                self.arguments.push((name, v));
                proof {
                    assert(args_view(self.arguments@) =~= args_view(before).push(
                        (self.deps@[i as int].name@, v),
                    ));
                }
                match f {
                    Some(g) => finalizers.add_finalizer(g),
                    None => {},
                }
                self.next = i + 1;
            },
            Err(_) => {
                self.failed = true;
            },
        }
    }
}

} // verus!
