//! The extension repository: which extensions have been added, which of
//! them are active, and what each is still waiting for.
//!
//! Adding an extension resolves its dependencies against the extensions
//! already active. An extension whose dependencies are all active, with no
//! required dependency of a version it does not accept, is activated at
//! once; the others wait, and are activated when their last awaited
//! dependency is. Activating an extension runs its initialisation, which is
//! the host's work: the repository names the extension to activate, the
//! host runs it and reports back, and the repository goes on from there.

use vstd::prelude::*;
use crate::errors::ExtensionInstallationError;
use crate::extension::{Dependency, Extension};
use crate::name_map::NameMap;
use crate::version::{check_version_against, version_check};

verus! {

/// A required dependency whose version the dependent does not accept.
pub struct VersionMismatch {
    pub extension: String,
    pub extension_version: String,
    pub dependency: String,
    pub dependency_version: String,
    pub version_matcher: String,
}

impl VersionMismatch {
    pub open spec fn view(&self) -> (Seq<char>, Seq<char>, Seq<char>, Seq<char>, Seq<char>) {
        (
            self.extension@,
            self.extension_version@,
            self.dependency@,
            self.dependency_version@,
            self.version_matcher@,
        )
    }
}

/// Why an operation of the repository failed.
pub enum RepositoryError {
    /// The repository refused the extension.
    Installation(ExtensionInstallationError),
    /// A version or version requirement could not be parsed; the message is
    /// semver's.
    Version(String),
}

/// What the host is to do next.
pub enum Activation {
    /// Nothing: no extension is waiting to be activated.
    Idle,
    /// Run the initialisation of the named extension, then report the
    /// outcome with `activation_succeeded` or `activation_failed`.
    Activate(String),
}

/// An extension that was not activated, and the required dependencies it
/// still waits for.
pub struct Problem {
    pub extension: String,
    pub version: String,
    pub missing: Vec<String>,
}

pub struct ExtensionRepository {
    locked: bool,
    /// Every extension added, by name.
    all_extensions: NameMap<Extension>,
    /// The names of the activated extensions, in the order of activation.
    activated_extensions: Vec<String>,
    /// For each resolved extension, the dependencies that were found active
    /// with an accepted version.
    extension_dependencies_resolved: NameMap<Vec<String>>,
    /// For each resolved extension, the dependencies it still waits for,
    /// with their version requirement and whether they are required.
    extension_dependencies_expected: NameMap<NameMap<(String, bool)>>,
    /// For each extension waited for, the extensions waiting for it.
    extensions_dependents_expected: NameMap<Vec<String>>,
    /// Every required dependency found with a version not accepted.
    version_mismatches: Vec<VersionMismatch>,
    /// The extension the host is activating, if any.
    activating: Option<String>,
    /// Extensions whose activation is due after the current one, the next
    /// one last.
    due: Vec<String>,
}

/// The names of a sequence of strings.
pub open spec fn names(s: Seq<String>) -> Seq<Seq<char>> {
    s.map_values(string_view())
}

/// The names held by a vector of strings, as a function.
pub open spec fn names_view() -> spec_fn(Vec<String>) -> Seq<Seq<char>> {
    |v: Vec<String>| names(v@)
}

/// The view of an awaited dependency: its requirement and whether it is
/// required.
pub open spec fn pair_view() -> spec_fn((String, bool)) -> (Seq<char>, bool) {
    |p: (String, bool)| (p.0@, p.1)
}

/// The view of the dependencies an extension waits for.
pub open spec fn awaited_view() -> spec_fn(NameMap<(String, bool)>) -> Map<Seq<char>, (Seq<char>, bool)> {
    |m: NameMap<(String, bool)>| m.view().map_values(pair_view())
}

/// Mapping the values of a map after an insertion.
proof fn lemma_map_values_insert<K, V, W>(m: Map<K, V>, k: K, v: V, f: spec_fn(V) -> W)
    ensures
        m.insert(k, v).map_values(f) == m.map_values(f).insert(k, f(v)),
{
    assert(m.insert(k, v).map_values(f) =~= m.map_values(f).insert(k, f(v)));
}

/// Mapping the values of a map after a removal.
proof fn lemma_map_values_remove<K, V, W>(m: Map<K, V>, k: K, f: spec_fn(V) -> W)
    ensures
        m.remove(k).map_values(f) == m.map_values(f).remove(k),
{
    assert(m.remove(k).map_values(f) =~= m.map_values(f).remove(k));
}

/// The view of a string, as a function.
pub open spec fn string_view() -> spec_fn(String) -> Seq<char> {
    |n: String| n@
}

/// Pushing a string pushes its view onto the names.
pub proof fn lemma_names_push(s: Seq<String>, x: String)
    ensures
        names(s.push(x)) == names(s).push(x@),
{
    s.lemma_push_map_commute(string_view(), x);
}

/// Whether `v` holds a string equal to `n`.
fn contains_name(v: &Vec<String>, n: &String) -> (b: bool)
    ensures
        b == names(v@).contains(n@),
{
    let len = v.len();
    let mut i: usize = 0;
    while i < len
        invariant
            len == v@.len(),
            i <= len,
            forall|j: int| 0 <= j < i ==> v@[j]@ != n@,
        decreases len - i,
    {
        if v[i] == *n {
            assert(names(v@)[i as int] == n@);
            return true;
        }
        i = i + 1;
    }
    proof {
        if names(v@).contains(n@) {
            let j = choose|j: int| 0 <= j < names(v@).len() && names(v@)[j] == n@;
            assert(v@[j]@ == n@);
        }
    }
    false
}

/// The first position in `from..n` where `stops` holds, or `n` if none.
pub open spec fn first_index(n: int, stops: spec_fn(int) -> bool, from: int) -> int
    decreases n - from,
{
    if from >= n {
        n
    } else if stops(from) {
        from
    } else {
        first_index(n, stops, from + 1)
    }
}

/// `first_index` is the least position where `stops` holds.
pub proof fn lemma_first_index(n: int, stops: spec_fn(int) -> bool, from: int)
    requires
        from <= n,
    ensures
        from <= first_index(n, stops, from) <= n,
        first_index(n, stops, from) < n ==> stops(first_index(n, stops, from)),
        forall|j: int| from <= j < first_index(n, stops, from) ==> !#[trigger] stops(j),
    decreases n - from,
{
    if from < n && !stops(from) {
        lemma_first_index(n, stops, from + 1);
    }
}

/// A position `k` where `stops` holds, before which it never does, is the
/// first one.
pub proof fn lemma_first_index_at(n: int, stops: spec_fn(int) -> bool, k: int)
    requires
        0 <= k <= n,
        k < n ==> stops(k),
        forall|j: int| 0 <= j < k ==> !#[trigger] stops(j),
    ensures
        first_index(n, stops, 0) == k,
{
    lemma_first_index(n, stops, 0);
    let r = first_index(n, stops, 0);
    if r < k {
        assert(stops(r));
    }
    if k < r {
        assert(!stops(k));
    }
}

/// Whether the dependency at position `k` names an extension already named
/// before it.
pub open spec fn repeats_earlier(deps: Seq<Dependency>, k: int) -> bool {
    exists|j: int| 0 <= j < k && deps[j].spec_name() == deps[k].spec_name()
}

/// The name of a dependency, as a function.
pub open spec fn dependency_name() -> spec_fn(Dependency) -> Seq<char> {
    |d: Dependency| d.spec_name()
}

/// The names of the dependencies in `deps`.
pub open spec fn dependency_names(deps: Seq<Dependency>) -> Seq<Seq<char>> {
    deps.map_values(dependency_name())
}

/// The invariant of the repository, over its model: the manifests, the
/// activated extensions in order, what each resolved extension awaits and
/// has found, who waits for whom, and the extensions being or due to be
/// activated.
pub open spec fn state_invariant(
    manifests: Map<Seq<char>, Extension>,
    activated: Seq<Seq<char>>,
    expected: Map<Seq<char>, Map<Seq<char>, (Seq<char>, bool)>>,
    resolved: Map<Seq<char>, Seq<Seq<char>>>,
    dependents: Map<Seq<char>, Seq<Seq<char>>>,
    pending: Seq<Seq<char>>,
) -> bool {
    // Every manifest is stored under its own name.
    &&& forall|n: Seq<char>| #[trigger] manifests.contains_key(n) ==> manifests[n].name@ == n
    // Resolution records exist for added extensions only, both kinds together.
    &&& expected.dom() == resolved.dom()
    &&& forall|d: Seq<char>| #[trigger] expected.contains_key(d) ==> manifests.contains_key(d)
    // Whoever waits for an extension has it among its awaited dependencies.
    &&& forall|x: Seq<char>, j: int|
        #![trigger dependents[x][j]]
        dependents.contains_key(x) && 0 <= j < dependents[x].len()
            ==> expected.contains_key(dependents[x][j]) && expected[dependents[x][j]].contains_key(x)
    &&& forall|x: Seq<char>| #[trigger] dependents.contains_key(x) ==> dependents[x].no_duplicates()
    // Each dependency of a resolved extension is awaited or active.
    &&& forall|d: Seq<char>, k: int|
        #![trigger expected[d], manifests[d].dependencies@[k]]
        expected.contains_key(d) && 0 <= k < manifests[d].dependencies@.len()
            ==> expected[d].contains_key(manifests[d].dependencies@[k].spec_name())
            || activated.contains(manifests[d].dependencies@[k].spec_name())
    // Activated extensions were added, once each, after their dependencies.
    &&& activated.no_duplicates()
    &&& forall|i: int| 0 <= i < activated.len()
        ==> #[trigger] expected.contains_key(activated[i])
        && expected[activated[i]] == Map::<Seq<char>, (Seq<char>, bool)>::empty()
    &&& forall|i: int, k: int|
        #![trigger manifests[activated[i]].dependencies@[k]]
        0 <= i < activated.len() && 0 <= k < manifests[activated[i]].dependencies@.len()
            ==> activated.take(i).contains(manifests[activated[i]].dependencies@[k].spec_name())
    // Extensions being or due to be activated wait for nothing and are not active yet.
    &&& pending.no_duplicates()
    &&& forall|i: int| 0 <= i < pending.len()
        ==> #[trigger] expected.contains_key(pending[i])
        && expected[pending[i]] == Map::<Seq<char>, (Seq<char>, bool)>::empty()
        && !activated.contains(pending[i])
}

impl ExtensionRepository {
    /// Whether the repository is locked.
    pub closed spec fn spec_locked(&self) -> bool {
        self.locked
    }

    /// The manifests of the added extensions, by name.
    pub closed spec fn manifests(&self) -> Map<Seq<char>, Extension> {
        self.all_extensions.view()
    }

    /// The version of each added extension.
    pub open spec fn versions(&self) -> Map<Seq<char>, Seq<char>> {
        self.manifests().map_values(|e: Extension| e.version@)
    }

    /// The dependencies declared by an added extension.
    pub open spec fn dependencies_of(&self, name: Seq<char>) -> Seq<Dependency> {
        self.manifests()[name].dependencies@
    }

    /// The activated extensions, in the order they were activated.
    pub closed spec fn activated(&self) -> Seq<Seq<char>> {
        names(self.activated_extensions@)
    }

    /// For each resolved extension, the dependencies it still waits for,
    /// with their version requirement and whether they are required.
    pub closed spec fn expected(&self) -> Map<Seq<char>, Map<Seq<char>, (Seq<char>, bool)>> {
        self.extension_dependencies_expected.view().map_values(awaited_view())
    }

    /// For each resolved extension, the dependencies found active with an
    /// accepted version, in the order they were found.
    pub closed spec fn resolved(&self) -> Map<Seq<char>, Seq<Seq<char>>> {
        self.extension_dependencies_resolved.view().map_values(names_view())
    }

    /// For each extension waited for, the extensions waiting for it, in the
    /// order they started waiting.
    pub closed spec fn dependents(&self) -> Map<Seq<char>, Seq<Seq<char>>> {
        self.extensions_dependents_expected.view().map_values(names_view())
    }

    /// The version mismatches found, in the order they were found.
    pub closed spec fn mismatches(&self) -> Seq<(Seq<char>, Seq<char>, Seq<char>, Seq<char>, Seq<char>)> {
        self.version_mismatches@.map_values(|m: VersionMismatch| m.view())
    }

    /// The extension whose activation the host is running, if any.
    pub closed spec fn activating(&self) -> Option<Seq<char>> {
        match self.activating {
            Some(n) => Some(n@),
            None => None,
        }
    }

    /// The extensions whose activation is due after the current one; the
    /// next one is last.
    pub closed spec fn due(&self) -> Seq<Seq<char>> {
        names(self.due@)
    }

    /// Whether the host is not in the middle of activating extensions.
    pub open spec fn idle(&self) -> bool {
        self.activating() is None
    }

    /// The repository's invariant.
    pub closed spec fn wf(&self) -> bool {
        &&& self.all_extensions.wf()
        &&& self.extension_dependencies_resolved.wf()
        &&& self.extension_dependencies_expected.wf()
        &&& self.extensions_dependents_expected.wf()
        &&& forall|d: Seq<char>| #[trigger] self.extension_dependencies_expected.view().contains_key(d)
            ==> self.extension_dependencies_expected.view()[d].wf()
        &&& state_invariant(
            self.manifests(),
            self.activated(),
            self.expected(),
            self.resolved(),
            self.dependents(),
            self.pending(),
        )
        &&& self.idle() ==> self.due().len() == 0
    }

    /// The extensions being or due to be activated.
    pub closed spec fn pending(&self) -> Seq<Seq<char>> {
        match self.activating() {
            Some(n) => self.due().push(n),
            None => self.due(),
        }
    }


    /// Whether a dependency names an activated extension.
    pub open spec fn is_active(&self, d: Dependency) -> bool {
        self.activated().contains(d.spec_name())
    }

    /// The version check of an active dependency: its requirement against
    /// the version of the extension it names.
    pub open spec fn found_check(&self, d: Dependency) -> Result<bool, Seq<char>> {
        version_check(d.spec_matcher(), self.versions()[d.spec_name()])
    }

    /// Whether resolving `deps` stops at position `k`: the name was listed
    /// before, or it names an active extension whose version cannot be
    /// checked against the requirement.
    pub open spec fn resolution_stops(&self, deps: Seq<Dependency>, k: int) -> bool {
        repeats_earlier(deps, k) || (self.is_active(deps[k]) && self.found_check(deps[k]) is Err)
    }

    /// Where resolving `deps` stops; `deps.len()` when it goes through.
    pub open spec fn resolution_stop(&self, deps: Seq<Dependency>) -> int {
        first_index(deps.len() as int, |k: int| self.resolution_stops(deps, k), 0)
    }

    /// Dependencies that are not active yet, and so are waited for.
    pub open spec fn awaits(&self) -> spec_fn(Dependency) -> bool {
        |d: Dependency| !self.is_active(d)
    }

    /// Active dependencies whose version is accepted.
    pub open spec fn accepts(&self) -> spec_fn(Dependency) -> bool {
        |d: Dependency| self.is_active(d) && self.found_check(d) == Ok::<bool, Seq<char>>(true)
    }

    /// Required active dependencies whose version is not accepted.
    pub open spec fn rejects_required(&self) -> spec_fn(Dependency) -> bool {
        |d: Dependency|
            self.is_active(d) && self.found_check(d) == Ok::<bool, Seq<char>>(false)
                && d.spec_required()
    }

    /// The mismatch recorded when `e` finds the dependency `d` with a
    /// version it does not accept.
    pub open spec fn mismatch_of(&self, e: Extension) -> spec_fn(Dependency) -> (Seq<char>, Seq<char>, Seq<char>, Seq<char>, Seq<char>) {
        |d: Dependency|
            (e.name@, e.version@, d.spec_name(), self.versions()[d.spec_name()], d.spec_matcher())
    }

    /// The names `e` waits for among `deps`, in order.
    pub open spec fn awaited_names(&self, deps: Seq<Dependency>) -> Seq<Seq<char>> {
        dependency_names(deps.filter(self.awaits()))
    }

    /// The names of the active dependencies among `deps` with an accepted
    /// version, in order.
    pub open spec fn accepted_names(&self, deps: Seq<Dependency>) -> Seq<Seq<char>> {
        dependency_names(deps.filter(self.accepts()))
    }

    /// The mismatches `e` records for the dependencies `deps`, in order.
    pub open spec fn resolution_mismatches(&self, e: Extension, deps: Seq<Dependency>) -> Seq<(Seq<char>, Seq<char>, Seq<char>, Seq<char>, Seq<char>)> {
        deps.filter(self.rejects_required()).map_values(self.mismatch_of(e))
    }

    /// What the extensions waited for map to once `e` is resolved with the
    /// awaited names `awaited`: `e` joins the end of the list of each of them.
    pub open spec fn dependents_awaiting(&self, waiter: Seq<char>, awaited: Seq<Seq<char>>) -> Map<Seq<char>, Seq<Seq<char>>> {
        Map::new(
            |x: Seq<char>| self.dependents().contains_key(x) || awaited.contains(x),
            |x: Seq<char>|
                (if self.dependents().contains_key(x) {
                    self.dependents()[x]
                } else {
                    Seq::<Seq<char>>::empty()
                }) + (if awaited.contains(x) {
                    seq![waiter]
                } else {
                    Seq::<Seq<char>>::empty()
                }),
        )
    }

    /// What a resolved extension with dependencies `deps` waits for: each
    /// dependency not active yet, with its requirement and whether it is
    /// required.
    pub open spec fn awaited_map(&self, deps: Seq<Dependency>) -> Map<Seq<char>, (Seq<char>, bool)> {
        Map::new(
            |n: Seq<char>| self.awaited_names(deps).contains(n),
            |n: Seq<char>| {
                let k = choose|k: int| 0 <= k < deps.len() && deps[k].spec_name() == n;
                (deps[k].spec_matcher(), deps[k].spec_required())
            },
        )
    }


    /// The extensions waiting for `x`, in the order they started waiting.
    pub open spec fn waiters(&self, x: Seq<char>) -> Seq<Seq<char>> {
        if self.dependents().contains_key(x) {
            self.dependents()[x]
        } else {
            Seq::<Seq<char>>::empty()
        }
    }

    /// The check of the activated extension `x` against the requirement of
    /// its waiter `d`.
    pub open spec fn waiter_check(&self, x: Seq<char>, d: Seq<char>) -> Result<bool, Seq<char>> {
        version_check(self.expected()[d][x].0, self.versions()[x])
    }

    /// Waiters whose requirement on `x` cannot be checked.
    pub open spec fn waiter_fails(&self, x: Seq<char>) -> spec_fn(int) -> bool {
        |i: int| self.waiter_check(x, self.waiters(x)[i]) is Err
    }

    /// Where going through the waiters of `x` stops; their number when it
    /// goes through.
    pub open spec fn completion_stop(&self, x: Seq<char>) -> int {
        first_index(self.waiters(x).len() as int, self.waiter_fails(x), 0)
    }

    /// Waiters that accept the version of `x`.
    pub open spec fn waiter_accepts(&self, x: Seq<char>) -> spec_fn(Seq<char>) -> bool {
        |d: Seq<char>| self.waiter_check(x, d) == Ok::<bool, Seq<char>>(true)
    }

    /// Waiters that require `x` and do not accept its version.
    pub open spec fn waiter_rejects_required(&self, x: Seq<char>) -> spec_fn(Seq<char>) -> bool {
        |d: Seq<char>| self.waiter_check(x, d) == Ok::<bool, Seq<char>>(false) && self.expected()[d][x].1
    }

    /// The mismatch recorded when the waiter `d` does not accept `x`.
    pub open spec fn waiter_mismatch(&self, x: Seq<char>) -> spec_fn(Seq<char>) -> (Seq<char>, Seq<char>, Seq<char>, Seq<char>, Seq<char>) {
        |d: Seq<char>| (d, self.versions()[d], x, self.versions()[x], self.expected()[d][x].0)
    }

    /// Waiters that accept `x` and waited for nothing else: they are due to
    /// be activated.
    pub open spec fn waiter_completes(&self, x: Seq<char>) -> spec_fn(Seq<char>) -> bool {
        |d: Seq<char>| self.waiter_check(x, d) == Ok::<bool, Seq<char>>(true)
            && self.expected()[d].dom() == set![x]
    }

    /// What the waiters of `x` still wait for once the first `reach` of
    /// them have stopped waiting for `x`.
    pub open spec fn expected_after(&self, x: Seq<char>, reach: int) -> Map<Seq<char>, Map<Seq<char>, (Seq<char>, bool)>> {
        Map::new(
            |d: Seq<char>| self.expected().contains_key(d),
            |d: Seq<char>|
                if self.waiters(x).take(reach).contains(d) {
                    self.expected()[d].remove(x)
                } else {
                    self.expected()[d]
                },
        )
    }

    /// What the extensions have found once the first `upto` waiters of `x`
    /// have checked it: those that accept it add it to their list.
    pub open spec fn resolved_after(&self, x: Seq<char>, upto: int) -> Map<Seq<char>, Seq<Seq<char>>> {
        Map::new(
            |d: Seq<char>| self.resolved().contains_key(d),
            |d: Seq<char>|
                if self.waiters(x).take(upto).filter(self.waiter_accepts(x)).contains(d) {
                    self.resolved()[d].push(x)
                } else {
                    self.resolved()[d]
                },
        )
    }

    /// The mismatches recorded by the first `upto` waiters of `x`.
    pub open spec fn completion_mismatches(&self, x: Seq<char>, upto: int) -> Seq<(Seq<char>, Seq<char>, Seq<char>, Seq<char>, Seq<char>)> {
        self.waiters(x).take(upto).filter(self.waiter_rejects_required(x)).map_values(
            self.waiter_mismatch(x),
        )
    }

    /// The waiters of `x` that become due, in order.
    pub open spec fn completed_by(&self, x: Seq<char>) -> Seq<Seq<char>> {
        self.waiters(x).filter(self.waiter_completes(x))
    }

    /// An empty, unlocked repository.
    pub fn new() -> (repository: ExtensionRepository)
        ensures
            repository.wf(),
            !repository.spec_locked(),
            repository.idle(),
            repository.manifests() == Map::<Seq<char>, Extension>::empty(),
            repository.versions() == Map::<Seq<char>, Seq<char>>::empty(),
            repository.activated() == Seq::<Seq<char>>::empty(),
            repository.expected() == Map::<Seq<char>, Map<Seq<char>, (Seq<char>, bool)>>::empty(),
            repository.resolved() == Map::<Seq<char>, Seq<Seq<char>>>::empty(),
            repository.dependents() == Map::<Seq<char>, Seq<Seq<char>>>::empty(),
            repository.mismatches().len() == 0,
            repository.tracks_activation(),
    {
        let repository = ExtensionRepository {
            locked: false,
            all_extensions: NameMap::new(),
            activated_extensions: Vec::new(),
            extension_dependencies_resolved: NameMap::new(),
            extension_dependencies_expected: NameMap::new(),
            extensions_dependents_expected: NameMap::new(),
            version_mismatches: Vec::new(),
            activating: None,
            due: Vec::new(),
        };
        proof {
            assert(repository.activated() =~= Seq::<Seq<char>>::empty());
            assert(repository.due() =~= Seq::<Seq<char>>::empty());
            assert(repository.versions() =~= Map::<Seq<char>, Seq<char>>::empty());
            assert(repository.expected() =~= Map::<Seq<char>, Map<Seq<char>, (Seq<char>, bool)>>::empty());
            assert(repository.resolved() =~= Map::<Seq<char>, Seq<Seq<char>>>::empty());
            assert(repository.dependents() =~= Map::<Seq<char>, Seq<Seq<char>>>::empty());
        }
        repository
    }

    /// Whether the repository is locked.
    pub fn is_locked(&self) -> (b: bool)
        ensures
            b == self.spec_locked(),
    {
        self.locked
    }

    /// Whether the host is not in the middle of activating extensions.
    pub fn is_idle(&self) -> (b: bool)
        ensures
            b == self.idle(),
    {
        self.activating.is_none()
    }

    /// The version of an added extension, or `None` if no extension of that
    /// name has been added.
    pub fn get_extension_version_for(&self, extension_name: &String) -> (r: Option<String>)
        requires
            self.wf(),
        ensures
            match r {
                Some(v) => self.versions().contains_key(extension_name@)
                    && v@ == self.versions()[extension_name@],
                None => !self.versions().contains_key(extension_name@),
            },
    {
        self.version_of(extension_name)
    }

    /// The version of an added extension, if any.
    fn version_of(&self, extension_name: &String) -> (r: Option<String>)
        requires
            self.all_extensions.wf(),
        ensures
            match r {
                Some(v) => self.versions().contains_key(extension_name@)
                    && v@ == self.versions()[extension_name@],
                None => !self.versions().contains_key(extension_name@),
            },
    {
        match self.all_extensions.get(extension_name) {
            Some(e) => Some(e.version.clone()),
            None => None,
        }
    }

    /// Locks the repository: from now on extensions can no longer be added.
    /// Locking a locked repository changes nothing.
    pub fn lock(&mut self)
        requires
            old(self).wf(),
        ensures
            final(self).wf(),
            repository_step(*old(self), *final(self), None),
            final(self).spec_locked(),
            final(self).manifests() == old(self).manifests(),
            final(self).activated() == old(self).activated(),
            final(self).expected() == old(self).expected(),
            final(self).resolved() == old(self).resolved(),
            final(self).dependents() == old(self).dependents(),
            final(self).mismatches() == old(self).mismatches(),
            final(self).activating() == old(self).activating(),
            final(self).due() == old(self).due(),
            old(self).tracks_activation() ==> final(self).tracks_activation(),
    {
        if self.locked {
            return;
        }
        let ghost before = *self;
        self.locked = true;
        proof {
            assert(self.manifests() == before.manifests());
            assert(self.expected() == before.expected());
            assert(self.activated() == before.activated());
            assert(self.dependents() == before.dependents());
            assert(self.pending() == before.pending());
            lemma_accepted_same_manifests(before, *self);
        }
    }
}

/// What checking a found dependency's version gives, once the check itself
/// has run: `None` when the version `received` is accepted, `Some(received)`
/// when it is not, and the parse error's message when it could not be
/// checked.
pub fn dependency_match_outcome(received: String, check: Result<bool, String>) -> (r: Result<Option<String>, RepositoryError>)
    ensures
        match check {
            Ok(true) => r matches Ok(None),
            Ok(false) => r matches Ok(Some(v)) && v == received,
            Err(message) => r matches Err(RepositoryError::Version(m)) && m == message,
        },
{
    match check {
        Ok(true) => Ok(None),
        Ok(false) => Ok(Some(received)),
        Err(message) => Err(RepositoryError::Version(message)),
    }
}

impl ExtensionRepository {
    /// Checks the added extension `dependency_name` against a version
    /// requirement: `None` when its version is accepted, its version when it
    /// is not.
    fn match_dependency(&self, dependency_name: &String, version_match: &String) -> (r: Result<Option<String>, RepositoryError>)
        requires
            self.all_extensions.wf(),
        ensures
            !self.versions().contains_key(dependency_name@) ==> (r matches Err(
                RepositoryError::Installation(ExtensionInstallationError::ExtensionNotFound(n)),
            ) && n@ == dependency_name@),
            self.versions().contains_key(dependency_name@) ==> match version_check(
                version_match@,
                self.versions()[dependency_name@],
            ) {
                Ok(true) => r matches Ok(None),
                Ok(false) => r matches Ok(Some(v)) && v@ == self.versions()[dependency_name@],
                Err(message) => r matches Err(RepositoryError::Version(m)) && m@ == message,
            },
    {
        match self.version_of(dependency_name) {
            Some(received) => {
                let check = check_version_against(version_match.as_str(), received.as_str());
                dependency_match_outcome(received, check)
            },
            None => Err(
                RepositoryError::Installation(
                    ExtensionInstallationError::ExtensionNotFound(dependency_name.clone()),
                ),
            ),
        }
    }
}


/// What every call that changes a repository keeps, `added` being the
/// manifest the call was given, if any: a locked repository stays locked
/// and is left as it is by an addition, and the versions read back stay
/// as they were, except that an addition may store the version of a name
/// not stored before.
pub open spec fn repository_step(a: ExtensionRepository, b: ExtensionRepository, added: Option<Extension>) -> bool {
    &&& a.spec_locked() ==> b.spec_locked()
    &&& (a.spec_locked() && added is Some) ==> b == a
    &&& match added {
        None => b.versions() == a.versions(),
        Some(e) => b.versions() == a.versions() || (!a.versions().contains_key(e.name@) && b.versions()
            == a.versions().insert(e.name@, e.version@)),
    }
}

/// Storing a manifest stores its version.
proof fn lemma_versions_insert(s0: ExtensionRepository, s1: ExtensionRepository, e: Extension)
    requires
        s1.manifests() == s0.manifests().insert(e.name@, e),
    ensures
        s1.versions() == s0.versions().insert(e.name@, e.version@),
{
    assert(s1.versions() =~= s0.versions().insert(e.name@, e.version@));
}

/// The first position of `deps` that names an extension named before it;
/// `deps.len()` when every name is listed once.
pub open spec fn first_repeat(deps: Seq<Dependency>) -> int {
    first_index(deps.len() as int, |k: int| repeats_earlier(deps, k), 0)
}

/// Finds the first dependency whose name was listed before it.
fn find_repeat(deps: &Vec<Dependency>) -> (r: usize)
    ensures
        r == first_repeat(deps@),
{
    let n = deps.len();
    let mut seen: Vec<String> = Vec::new();
    let mut k: usize = 0;
    while k < n
        invariant
            n == deps@.len(),
            k <= n,
            names(seen@) == dependency_names(deps@.take(k as int)),
            forall|j: int| 0 <= j < k ==> !#[trigger] repeats_earlier(deps@, j),
        decreases n - k,
    {
        let dep_name = deps[k].name().clone();
        proof {
            lemma_names_take_succ(deps@, k as int);
        }
        if contains_name(&seen, &dep_name) {
            proof {
                let j = choose|j: int| 0 <= j < names(seen@).len() && names(seen@)[j] == dep_name@;
                assert(dependency_names(deps@.take(k as int))[j] == deps@[j].spec_name());
                assert(repeats_earlier(deps@, k as int));
                lemma_first_index_at(n as int, |i: int| repeats_earlier(deps@, i), k as int);
            }
            return k;
        }
        proof {
            assert(!repeats_earlier(deps@, k as int)) by {
                if repeats_earlier(deps@, k as int) {
                    let j = choose|j: int| 0 <= j < k && deps@[j].spec_name() == deps@[k as int].spec_name();
                    assert(names(seen@)[j] == dependency_names(deps@.take(k as int))[j]);
                    assert(names(seen@).contains(dep_name@));
                }
            }
        }
        let ghost seen_before = seen@;
        seen.push(dep_name.clone());
        proof {
            lemma_names_push(seen_before, dep_name);
        }
        k = k + 1;
    }
    proof {
        lemma_first_index_at(n as int, |i: int| repeats_earlier(deps@, i), n as int);
    }
    n
}

impl ExtensionRepository {
    /// Adds an extension and resolves its dependencies against the active
    /// extensions.
    ///
    /// A locked repository refuses it. An extension already added under the
    /// same name is left as it is: with the same version the call succeeds,
    /// with another one it is refused. A manifest that names a dependency
    /// twice is refused with `DuplicateDependency`, the first repeated name,
    /// before anything is stored. Otherwise the manifest is stored and the
    /// dependencies are gone through in order. An active dependency whose
    /// version cannot be checked stops the resolution with semver's message;
    /// the manifest then stays added, and the mismatches found before stay
    /// recorded, but the extension is not resolved. Otherwise every
    /// dependency that is not active is waited for, and the extension is
    /// activated at once when it waits for nothing and no required
    /// dependency has a version it does not accept. The refusal of a locked
    /// repository and the answer for a name already added hold at any time;
    /// the rest needs a repository that is not activating extensions.
    pub fn add(&mut self, extension: Extension) -> (r: Result<Activation, RepositoryError>)
        requires
            old(self).wf(),
            old(self).idle() || old(self).spec_locked() || old(self).versions().contains_key(
                extension.name@,
            ),
        ensures
            final(self).wf(),
            repository_step(*old(self), *final(self), Some(extension)),
            final(self).spec_locked() == old(self).spec_locked(),
            final(self).activated() == old(self).activated(),
            final(self).due() == old(self).due(),
            old(self).spec_locked() ==> (r matches Err(
                RepositoryError::Installation(ExtensionInstallationError::Locked),
            ) && *final(self) == *old(self)),
            !old(self).spec_locked() && old(self).versions().contains_key(extension.name@) ==> (
                *final(self) == *old(self) && if old(self).versions()[extension.name@] == extension.version@ {
                    r matches Ok(Activation::Idle)
                } else {
                    r matches Err(
                        RepositoryError::Installation(
                            ExtensionInstallationError::ExtensionAlreadyAdded(n, added, adding),
                        ),
                    ) && n@ == extension.name@ && added@ == old(self).versions()[extension.name@]
                        && adding@ == extension.version@
                }),
            forall|n: Seq<char>| #[trigger] old(self).versions().contains_key(n)
                ==> final(self).versions().contains_key(n) && final(self).versions()[n]
                == old(self).versions()[n],
            old(self).tracks_activation() ==> final(self).tracks_activation(),
            !old(self).spec_locked() && !old(self).versions().contains_key(extension.name@)
                && first_repeat(extension.dependencies@) < extension.dependencies@.len() ==> (r matches Err(
                RepositoryError::Installation(ExtensionInstallationError::DuplicateDependency(n, v, d)),
            ) && n@ == extension.name@ && v@ == extension.version@ && d@
                == extension.dependencies@[first_repeat(extension.dependencies@)].spec_name()
                && *final(self) == *old(self)),
            !old(self).spec_locked() && !old(self).versions().contains_key(extension.name@)
                && first_repeat(extension.dependencies@) == extension.dependencies@.len() ==> ({
                let deps = extension.dependencies@;
                let stop = old(self).resolution_stop(deps);
                &&& final(self).manifests() == old(self).manifests().insert(extension.name@, extension)
                &&& final(self).mismatches() == old(self).mismatches()
                    + old(self).resolution_mismatches(extension, deps.take(stop))
                &&& stop < deps.len() ==> {
                    &&& final(self).expected() == old(self).expected()
                    &&& final(self).resolved() == old(self).resolved()
                    &&& final(self).dependents() == old(self).dependents()
                    &&& final(self).idle()
                    &&& r matches Err(RepositoryError::Version(m)) && old(self).found_check(deps[stop])
                        == Err::<bool, Seq<char>>(m@)
                }
                &&& stop == deps.len() ==> {
                    &&& final(self).expected() == old(self).expected().insert(
                        extension.name@,
                        old(self).awaited_map(deps),
                    )
                    &&& final(self).resolved() == old(self).resolved().insert(
                        extension.name@,
                        old(self).accepted_names(deps),
                    )
                    &&& final(self).dependents() == old(self).dependents_awaiting(
                        extension.name@,
                        old(self).awaited_names(deps),
                    )
                    &&& if old(self).awaited_names(deps).len() == 0
                        && old(self).resolution_mismatches(extension, deps).len() == 0 {
                        &&& r matches Ok(Activation::Activate(n)) && n@ == extension.name@
                        &&& final(self).activating() == Some(extension.name@)
                    } else {
                        r matches Ok(Activation::Idle) && final(self).idle()
                    }
                }
            }),
    {
        if self.locked {
            return Err(RepositoryError::Installation(ExtensionInstallationError::Locked));
        }
        match self.get_extension_version_for(&extension.name) {
            Some(version) => {
                if version == extension.version {
                    // The same extension, at the same version: nothing to do.
                    return Ok(Activation::Idle);
                }
                return Err(
                    RepositoryError::Installation(
                        ExtensionInstallationError::ExtensionAlreadyAdded(
                            extension.name.clone(),
                            version,
                            extension.version.clone(),
                        ),
                    ),
                );
            },
            None => {},
        }
        let ghost s0 = *self;
        let ghost e = extension;
        let repeat = find_repeat(&extension.dependencies);
        if repeat < extension.dependencies.len() {
            return Err(
                RepositoryError::Installation(
                    ExtensionInstallationError::DuplicateDependency(
                        extension.name.clone(),
                        extension.version.clone(),
                        extension.dependencies[repeat].name().clone(),
                    ),
                ),
            );
        }
        proof {
            lemma_first_index(
                e.dependencies@.len() as int,
                |k: int| repeats_earlier(e.dependencies@, k),
                0,
            );
        }
        let name = extension.name.clone();
        let version = extension.version.clone();
        let deps = crate::extension::duplicate_dependencies(&extension.dependencies);
        self.unsafely_insert_extension(extension);
        proof {
            assert(self.manifests() == s0.manifests().insert(name@, e));
            lemma_versions_after_insert(s0, *self, name@, e);
            assert(self.expected() == s0.expected());
            assert(self.resolved() == s0.resolved());
            assert(self.dependents() == s0.dependents());
            assert(self.activated() == s0.activated());
            assert(self.pending() == s0.pending());
            lemma_insert_manifest_keeps_invariant(s0, name@, e);
            assert(self.wf());
        }

        let r = self.resolve(name, version, deps, Ghost(s0), Ghost(e));
        proof {
            lemma_versions_insert(s0, *self, e);
            let d = e.dependencies@;
            let stop = s0.resolution_stop(d);
            lemma_first_index(d.len() as int, |k: int| s0.resolution_stops(d, k), 0);
            if stop < d.len() {
                let repeats = |k: int| repeats_earlier(d, k);
                assert(!repeats(stop));
            }
            if s0.tracks_activation() {
                lemma_add_keeps_tracking(s0, *self, e);
            }
        }
        r
    }

    /// Stores a manifest under its name, without any check.
    fn unsafely_insert_extension(&mut self, extension: Extension)
        requires
            old(self).all_extensions.wf(),
        ensures
            final(self).all_extensions.wf(),
            final(self).manifests() == old(self).manifests().insert(extension.name@, extension),
            final(self).locked == old(self).locked,
            final(self).activated_extensions == old(self).activated_extensions,
            final(self).extension_dependencies_resolved == old(self).extension_dependencies_resolved,
            final(self).extension_dependencies_expected == old(self).extension_dependencies_expected,
            final(self).extensions_dependents_expected == old(self).extensions_dependents_expected,
            final(self).version_mismatches == old(self).version_mismatches,
            final(self).activating == old(self).activating,
            final(self).due == old(self).due,
    {
        self.all_extensions.insert(extension.name.clone(), extension);
    }

    /// Resolves the dependencies of an extension just stored, as `add`
    /// describes; `s0` is the repository before the manifest was stored,
    /// and `e` the manifest.
    fn resolve(
        &mut self,
        name: String,
        version: String,
        deps: Vec<Dependency>,
        Ghost(s0): Ghost<ExtensionRepository>,
        Ghost(e): Ghost<Extension>,
    ) -> (r: Result<Activation, RepositoryError>)
        requires
            s0.wf(),
            s0.idle(),
            !s0.locked,
            !s0.versions().contains_key(e.name@),
            name@ == e.name@,
            version@ == e.version@,
            deps@ == e.dependencies@,
            old(self).wf(),
            old(self).locked == s0.locked,
            old(self).activated() == s0.activated(),
            old(self).expected() == s0.expected(),
            old(self).resolved() == s0.resolved(),
            old(self).dependents() == s0.dependents(),
            old(self).due() == s0.due(),
            old(self).activating() == s0.activating(),
            old(self).mismatches() == s0.mismatches(),
            old(self).manifests() == s0.manifests().insert(e.name@, e),
            forall|x: Seq<char>| x != e.name@ && s0.versions().contains_key(x)
                ==> old(self).versions().contains_key(x) && old(self).versions()[x] == s0.versions()[x],
            old(self).extension_dependencies_expected == s0.extension_dependencies_expected,
        ensures
            final(self).wf(),
            final(self).spec_locked() == s0.spec_locked(),
            final(self).activated() == s0.activated(),
            final(self).due() == s0.due(),
            ({
            let deps = e.dependencies@;
            let stop = s0.resolution_stop(deps);
            &&& final(self).manifests() == s0.manifests().insert(e.name@, e)
            &&& final(self).mismatches() == s0.mismatches()
                + s0.resolution_mismatches(e, deps.take(stop))
            &&& stop < deps.len() ==> {
                &&& final(self).expected() == s0.expected()
                &&& final(self).resolved() == s0.resolved()
                &&& final(self).dependents() == s0.dependents()
                &&& final(self).idle()
                &&& if repeats_earlier(deps, stop) {
                    r matches Err(
                        RepositoryError::Installation(
                            ExtensionInstallationError::DuplicateDependency(n, v, d),
                        ),
                    ) && n@ == e.name@ && v@ == e.version@ && d@
                        == deps[stop].spec_name()
                } else {
                    r matches Err(RepositoryError::Version(m)) && s0.found_check(deps[stop])
                        == Err::<bool, Seq<char>>(m@)
                }
            }
            &&& stop == deps.len() ==> {
                &&& final(self).expected() == s0.expected().insert(
                    e.name@,
                    s0.awaited_map(deps),
                )
                &&& final(self).resolved() == s0.resolved().insert(
                    e.name@,
                    s0.accepted_names(deps),
                )
                &&& final(self).dependents() == s0.dependents_awaiting(
                    e.name@,
                    s0.awaited_names(deps),
                )
                &&& if s0.awaited_names(deps).len() == 0
                    && s0.resolution_mismatches(e, deps).len() == 0 {
                    &&& r matches Ok(Activation::Activate(n)) && n@ == e.name@
                    &&& final(self).activating() == Some(e.name@)
                } else {
                    r matches Ok(Activation::Idle) && final(self).idle()
                }
            }
        }),
    {
        let ghost s1 = *self;
        let mut seen: Vec<String> = Vec::new();
        let mut has_problems = false;
        let mut pending: NameMap<(String, bool)> = NameMap::new();
        let mut solved: Vec<String> = Vec::new();
        let mut pending_names: Vec<String> = Vec::new();
        let n = deps.len();
        let mut k: usize = 0;
        proof {
            assert(deps@.take(0) =~= Seq::<Dependency>::empty());
            assert(names(seen@) =~= Seq::<Seq<char>>::empty());
            assert(dependency_names(deps@.take(0)) =~= Seq::<Seq<char>>::empty());
            assert(s0.awaited_names(deps@.take(0)) =~= Seq::<Seq<char>>::empty());
            assert(s0.accepted_names(deps@.take(0)) =~= Seq::<Seq<char>>::empty());
            assert(s0.resolution_mismatches(e, deps@.take(0)) =~= Seq::empty());
            assert(pending.view().dom() =~= s0.awaited_names(deps@.take(0)).to_set());
            assert(names(pending_names@) =~= Seq::<Seq<char>>::empty());
            assert(names(solved@) =~= Seq::<Seq<char>>::empty());
            assert(self.mismatches() =~= s0.mismatches() + s0.resolution_mismatches(e, deps@.take(0)));
        }
        while k < n
            invariant
                n == deps@.len(),
                deps@ == e.dependencies@,
                name@ == e.name@,
                version@ == e.version@,
                k <= n,
                s1.locked == s0.locked,
                s0.wf(),
                s0.idle(),
                !s0.locked,
                !s0.versions().contains_key(e.name@),
                s1.wf(),
                self.locked == s1.locked,
                self.all_extensions == s1.all_extensions,
                self.activated_extensions == s1.activated_extensions,
                self.extension_dependencies_resolved == s1.extension_dependencies_resolved,
                self.extension_dependencies_expected == s1.extension_dependencies_expected,
                self.extensions_dependents_expected == s1.extensions_dependents_expected,
                self.activating == s1.activating,
                self.due == s1.due,
                s1.activated() == s0.activated(),
                s1.expected() == s0.expected(),
                s1.resolved() == s0.resolved(),
                s1.dependents() == s0.dependents(),
                s1.due() == s0.due(),
                s1.activating() == s0.activating(),
                s1.mismatches() == s0.mismatches(),
                s1.manifests() == s0.manifests().insert(e.name@, e),
                forall|x: Seq<char>| x != e.name@ && s0.versions().contains_key(x)
                    ==> s1.versions().contains_key(x) && s1.versions()[x] == s0.versions()[x],
                forall|j: int| 0 <= j < k ==> !#[trigger] s0.resolution_stops(deps@, j),
                names(seen@) == dependency_names(deps@.take(k as int)),
                pending.wf(),
                pending.view().dom() == s0.awaited_names(deps@.take(k as int)).to_set(),
                forall|x: Seq<char>| #[trigger] pending.view().contains_key(x) ==> exists|j: int|
                    0 <= j < k && !s0.is_active(deps@[j]) && deps@[j].spec_name() == x,
                forall|j: int| 0 <= j < k && !s0.is_active(#[trigger] deps@[j])
                    ==> pending.view()[deps@[j].spec_name()].0@ == deps@[j].spec_matcher()
                    && pending.view()[deps@[j].spec_name()].1 == deps@[j].spec_required(),
                names(pending_names@) == s0.awaited_names(deps@.take(k as int)),
                names(pending_names@).no_duplicates(),
                forall|j: int| 0 <= j < pending_names@.len() ==> names(seen@).contains(
                    #[trigger] names(pending_names@)[j],
                ),
                names(solved@) == s0.accepted_names(deps@.take(k as int)),
                self.mismatches() == s0.mismatches() + s0.resolution_mismatches(e, deps@.take(k as int)),
                has_problems == (s0.resolution_mismatches(e, deps@.take(k as int)).len() > 0),
            decreases n - k,
        {
            let dep = &deps[k];
            let dep_name = dep.name().clone();
            let matcher = dep.version_matcher().clone();
            let required = dep.is_required();
            proof {
                lemma_names_take_succ(deps@, k as int);
                lemma_resolution_step(s0, e, deps@, k as int);
            }
            if contains_name(&seen, &dep_name) {
                proof {
                    let j = choose|j: int| 0 <= j < names(seen@).len() && names(seen@)[j] == dep_name@;
                    assert(dependency_names(deps@.take(k as int))[j] == deps@[j].spec_name());
                    assert(repeats_earlier(deps@, k as int));
                    assert(s0.resolution_stops(deps@, k as int));
                    lemma_first_index_at(n as int, |i: int| s0.resolution_stops(deps@, i), k as int);
                    lemma_error_exit(s0, s1, *self);
                }
                return Err(
                    RepositoryError::Installation(
                        ExtensionInstallationError::DuplicateDependency(name, version, dep_name),
                    ),
                );
            }
            proof {
                assert(!repeats_earlier(deps@, k as int)) by {
                    if repeats_earlier(deps@, k as int) {
                        let j = choose|j: int| 0 <= j < k && deps@[j].spec_name() == deps@[k as int].spec_name();
                        assert(names(seen@)[j] == dependency_names(deps@.take(k as int))[j]);
                        assert(names(seen@).contains(dep_name@));
                    }
                }
            }
            let ghost seen_before = seen@;
            seen.push(dep_name.clone());
            proof {
                lemma_names_push(seen_before, dep_name);
                assert forall|j: int| 0 <= j < pending_names@.len() implies names(seen@).contains(
                    #[trigger] names(pending_names@)[j],
                ) by {
                    let i = choose|i: int| 0 <= i < names(seen_before).len() && names(seen_before)[i] == names(pending_names@)[j];
                    assert(names(seen@)[i] == names(seen_before)[i]);
                }
            }
            let active = contains_name(&self.activated_extensions, &dep_name);
            assert(active == s0.is_active(deps@[k as int]));
            if !active {
                let ghost pending_before = pending;
                let ghost names_before = pending_names@;
                pending.insert(dep_name.clone(), (matcher, required));
                pending_names.push(dep_name.clone());
                proof {
                    lemma_names_push(names_before, dep_name);
                    assert(!names(names_before).contains(dep_name@)) by {
                        if names(names_before).contains(dep_name@) {
                            let j = choose|j: int| 0 <= j < names(names_before).len() && names(names_before)[j] == dep_name@;
                            assert(names(seen_before).contains(names(names_before)[j]));
                        }
                    }
                    assert(names(pending_names@).no_duplicates());
                    assert forall|j: int| 0 <= j < pending_names@.len() implies names(seen@).contains(
                        #[trigger] names(pending_names@)[j],
                    ) by {
                        if j < names_before.len() {
                            assert(names(pending_names@)[j] == names(names_before)[j]);
                        } else {
                            assert(names(seen@)[k as int] == dep_name@);
                        }
                    }
                    s0.awaited_names(deps@.take(k as int)).lemma_push_to_set_commute(dep_name@);
                    assert(pending.view().dom() =~= s0.awaited_names(deps@.take(k + 1)).to_set());
                    assert forall|x: Seq<char>| #[trigger] pending.view().contains_key(x) implies exists|j: int|
                        0 <= j < k + 1 && !s0.is_active(deps@[j]) && deps@[j].spec_name() == x by {
                        if x != dep_name@ {
                            assert(pending_before.view().contains_key(x));
                        }
                    }
                    assert forall|j: int| 0 <= j < k + 1 && !s0.is_active(#[trigger] deps@[j])
                        implies pending.view()[deps@[j].spec_name()].0@ == deps@[j].spec_matcher()
                        && pending.view()[deps@[j].spec_name()].1 == deps@[j].spec_required() by {
                        if j < k {
                            assert(deps@[j].spec_name() != deps@[k as int].spec_name()) by {
                                assert(!s0.resolution_stops(deps@, j) || j == k);
                                if deps@[j].spec_name() == deps@[k as int].spec_name() {
                                    assert(repeats_earlier(deps@, k as int));
                                }
                            }
                        }
                    }
                }
            } else {
                proof {
                    lemma_active_is_added(s0, dep_name@);
                }
                match self.match_dependency(&dep_name, &matcher) {
                    Err(err) => {
                        proof {
                            assert(s0.resolution_stops(deps@, k as int));
                            lemma_first_index_at(n as int, |i: int| s0.resolution_stops(deps@, i), k as int);
                            lemma_error_exit(s0, s1, *self);
                        }
                        return Err(err);
                    },
                    Ok(Some(received)) => {
                        let ghost mismatches_before = self.version_mismatches@;
                        if required {
                            has_problems = true;
                            self.version_mismatches.push(
                                VersionMismatch {
                                    extension: name.clone(),
                                    extension_version: version.clone(),
                                    dependency: dep_name,
                                    dependency_version: received,
                                    version_matcher: matcher,
                                },
                            );
                            proof {
                                mismatches_before.lemma_push_map_commute(
                                    |m: VersionMismatch| m.view(),
                                    self.version_mismatches@.last(),
                                );
                                assert(self.version_mismatches@ == mismatches_before.push(self.version_mismatches@.last()));
                                assert(self.mismatches() =~= s0.mismatches() + s0.resolution_mismatches(e, deps@.take(k + 1)));
                            }
                        }
                    },
                    Ok(None) => {
                        let ghost solved_before = solved@;
                        solved.push(dep_name);
                        proof {
                            lemma_names_push(solved_before, dep_name);
                        }
                    },
                }
            }
            k = k + 1;
        }
        proof {
            deps@.lemma_take_len();
            lemma_first_index_at(n as int, |i: int| s0.resolution_stops(deps@, i), n as int);
        }
        let ghost s2 = *self;
        let ghost awaited = names(pending_names@);
        // Register the extension with each dependency it waits for.
        let np = pending_names.len();
        let mut i: usize = 0;
        proof {
            assert(awaited.take(0) =~= Seq::<Seq<char>>::empty());
            assert(self.dependents() =~= s0.dependents_awaiting(e.name@, awaited.take(0)));
        }
        while i < np
            invariant
                np == pending_names@.len(),
                awaited == names(pending_names@),
                awaited.no_duplicates(),
                i <= np,
                name@ == e.name@,
                self.locked == s2.locked,
                self.all_extensions == s2.all_extensions,
                self.activated_extensions == s2.activated_extensions,
                self.extension_dependencies_resolved == s2.extension_dependencies_resolved,
                self.extension_dependencies_expected == s2.extension_dependencies_expected,
                self.version_mismatches == s2.version_mismatches,
                self.activating == s2.activating,
                self.due == s2.due,
                self.extensions_dependents_expected.wf(),
                self.dependents() == s0.dependents_awaiting(e.name@, awaited.take(i as int)),
            decreases np - i,
        {
            let dependency_name = &pending_names[i];
            let ghost before = self.extensions_dependents_expected;
            let existing = self.extensions_dependents_expected.remove(dependency_name);
            let mut waiting: Vec<String> = match existing {
                Some(list) => list,
                None => Vec::new(),
            };
            let ghost waiting_before = waiting@;
            waiting.push(name.clone());
            self.extensions_dependents_expected.insert(dependency_name.clone(), waiting);
            proof {
                lemma_names_push(waiting_before, name);
                lemma_map_values_insert(before.view().remove(dependency_name@), dependency_name@, waiting, names_view());
                lemma_map_values_remove(before.view(), dependency_name@, names_view());
                lemma_dependents_step(s0, e.name@, awaited, i as int);
                assert(awaited[i as int] == dependency_name@);
                let d_before = before.view().map_values(names_view());
                assert(d_before == s0.dependents_awaiting(e.name@, awaited.take(i as int)));
                assert(names(waiting_before) == if d_before.contains_key(dependency_name@) {
                    d_before[dependency_name@]
                } else {
                    Seq::<Seq<char>>::empty()
                }) by {
                    if !d_before.contains_key(dependency_name@) {
                        assert(names(waiting_before) =~= Seq::<Seq<char>>::empty());
                    }
                }
                assert(self.dependents() =~= d_before.remove(dependency_name@).insert(dependency_name@, names(waiting@)));
                assert(self.dependents() =~= s0.dependents_awaiting(e.name@, awaited.take(i + 1)));
            }
            i = i + 1;
        }
        proof {
            assert(awaited.take(np as int) == awaited);
        }
        let ghost pending_view = pending.view();
        let has_pending = pending_names.len() > 0;
        self.extension_dependencies_expected.insert(name.clone(), pending);
        self.extension_dependencies_resolved.insert(name.clone(), solved);
        proof {
            lemma_map_values_insert(s2.extension_dependencies_expected.view(), name@, pending, awaited_view());
            lemma_map_values_insert(s2.extension_dependencies_resolved.view(), name@, solved, names_view());
            lemma_awaited_map(s0, deps@, pending);
            assert(self.expected() == s0.expected().insert(e.name@, s0.awaited_map(deps@)));
            assert(self.resolved() == s0.resolved().insert(e.name@, s0.accepted_names(deps@)));
        }
        if !has_pending && !has_problems {
            self.activating = Some(name.clone());
            proof {
                assert(s0.awaited_map(deps@) =~= Map::<Seq<char>, (Seq<char>, bool)>::empty());
                assert(self.pending() =~= seq![e.name@]);
                lemma_resolve_keeps_invariant(s0, e, self.pending());
                assert forall|d: Seq<char>| #[trigger] self.extension_dependencies_expected.view().contains_key(d)
                    implies self.extension_dependencies_expected.view()[d].wf() by {
                    if d != e.name@ {
                        assert(s0.extension_dependencies_expected.view().contains_key(d));
                    }
                }
            }
            return Ok(Activation::Activate(name));
        }
        proof {
            assert(self.pending() =~= Seq::<Seq<char>>::empty());
            lemma_resolve_keeps_invariant(s0, e, self.pending());
            assert forall|d: Seq<char>| #[trigger] self.extension_dependencies_expected.view().contains_key(d)
                implies self.extension_dependencies_expected.view()[d].wf() by {
                if d != e.name@ {
                    assert(s0.extension_dependencies_expected.view().contains_key(d));
                }
            }
        }
        Ok(Activation::Idle)
    }

}

/// Filtering then mapping a sequence with one more element.
proof fn lemma_filter_map_push<A, B>(s: Seq<A>, x: A, p: spec_fn(A) -> bool, f: spec_fn(A) -> B)
    ensures
        s.push(x).filter(p).map_values(f) == if p(x) {
            s.filter(p).map_values(f).push(f(x))
        } else {
            s.filter(p).map_values(f)
        },
{
    s.lemma_filter_push(x, p);
    if p(x) {
        s.filter(p).lemma_push_map_commute(f, x);
    }
}

/// How the resolution records grow by one dependency.
proof fn lemma_resolution_step(s0: ExtensionRepository, e: Extension, deps: Seq<Dependency>, k: int)
    requires
        0 <= k < deps.len(),
    ensures
        s0.awaited_names(deps.take(k + 1)) == if (s0.awaits())(deps[k]) {
            s0.awaited_names(deps.take(k)).push(deps[k].spec_name())
        } else {
            s0.awaited_names(deps.take(k))
        },
        s0.accepted_names(deps.take(k + 1)) == if (s0.accepts())(deps[k]) {
            s0.accepted_names(deps.take(k)).push(deps[k].spec_name())
        } else {
            s0.accepted_names(deps.take(k))
        },
        s0.resolution_mismatches(e, deps.take(k + 1)) == if (s0.rejects_required())(deps[k]) {
            s0.resolution_mismatches(e, deps.take(k)).push((s0.mismatch_of(e))(deps[k]))
        } else {
            s0.resolution_mismatches(e, deps.take(k))
        },
{
    deps.lemma_take_succ_push(k);
    assert(deps.take(k + 1) == deps.take(k).push(deps[k]));
    lemma_filter_map_push(deps.take(k), deps[k], s0.awaits(), dependency_name());
    lemma_filter_map_push(deps.take(k), deps[k], s0.accepts(), dependency_name());
    lemma_filter_map_push(deps.take(k), deps[k], s0.rejects_required(), s0.mismatch_of(e));
}

/// Storing the manifest of a new extension keeps the invariant.
proof fn lemma_insert_manifest_keeps_invariant(s0: ExtensionRepository, name: Seq<char>, e: Extension)
    requires
        s0.wf(),
        e.name@ == name,
        !s0.manifests().contains_key(name),
    ensures
        state_invariant(
            s0.manifests().insert(name, e),
            s0.activated(),
            s0.expected(),
            s0.resolved(),
            s0.dependents(),
            s0.pending(),
        ),
{
    let m = s0.manifests().insert(name, e);
    assert forall|d: Seq<char>| #[trigger] s0.expected().contains_key(d) implies m[d] == s0.manifests()[d] by {
        assert(s0.manifests().contains_key(d));
    }
    assert forall|i: int| 0 <= i < s0.activated().len() implies m[s0.activated()[i]] == s0.manifests()[s0.activated()[i]] by {
        assert(s0.expected().contains_key(s0.activated()[i]));
    }
}

/// Leaving after a stopped resolution: the state is the one after storing
/// the manifest, with more mismatches recorded.
proof fn lemma_error_exit(s0: ExtensionRepository, s1: ExtensionRepository, s: ExtensionRepository)
    requires
        s1.wf(),
        s.locked == s1.locked,
        s.all_extensions == s1.all_extensions,
        s.activated_extensions == s1.activated_extensions,
        s.extension_dependencies_resolved == s1.extension_dependencies_resolved,
        s.extension_dependencies_expected == s1.extension_dependencies_expected,
        s.extensions_dependents_expected == s1.extensions_dependents_expected,
        s.activating == s1.activating,
        s.due == s1.due,
    ensures
        s.wf(),
        s.spec_locked() == s1.spec_locked(),
        s.manifests() == s1.manifests(),
        s.activated() == s1.activated(),
        s.expected() == s1.expected(),
        s.resolved() == s1.resolved(),
        s.dependents() == s1.dependents(),
        s.activating() == s1.activating(),
        s.due() == s1.due(),
{
    assert(s.pending() == s1.pending());
}

/// Registering the waiter with one more awaited dependency.
proof fn lemma_dependents_step(s0: ExtensionRepository, waiter: Seq<char>, awaited: Seq<Seq<char>>, i: int)
    requires
        awaited.no_duplicates(),
        0 <= i < awaited.len(),
    ensures
        ({
            let before = s0.dependents_awaiting(waiter, awaited.take(i));
            let x = awaited[i];
            s0.dependents_awaiting(waiter, awaited.take(i + 1)) == before.insert(
                x,
                (if before.contains_key(x) {
                    before[x]
                } else {
                    Seq::<Seq<char>>::empty()
                }).push(waiter),
            )
        }),
{
    let before = s0.dependents_awaiting(waiter, awaited.take(i));
    let after = s0.dependents_awaiting(waiter, awaited.take(i + 1));
    let x = awaited[i];
    awaited.lemma_take_succ_push(i);
    assert(!awaited.take(i).contains(x)) by {
        let t0 = awaited.take(i);
        if t0.contains(x) {
            let j = choose|j: int| 0 <= j < t0.len() && t0[j] == x;
            assert(awaited[j] == awaited[i]);
        }
    }
    assert(awaited.take(i + 1).contains(x)) by {
        assert(awaited.take(i + 1)[i] == x);
    }
    assert forall|y: Seq<char>| y != x implies (awaited.take(i + 1).contains(y) == awaited.take(i).contains(y)) by {
        let t1 = awaited.take(i + 1);
        let t0 = awaited.take(i);
        if t1.contains(y) {
            let j = choose|j: int| 0 <= j < t1.len() && t1[j] == y;
            assert(t0[j] == y);
        }
        if t0.contains(y) {
            let j = choose|j: int| 0 <= j < t0.len() && t0[j] == y;
            assert(t1[j] == y);
        }
    }
    let expected = before.insert(
        x,
        (if before.contains_key(x) {
            before[x]
        } else {
            Seq::<Seq<char>>::empty()
        }).push(waiter),
    );
    assert forall|y: Seq<char>| #[trigger] after.contains_key(y) == expected.contains_key(y) by {}
    assert forall|y: Seq<char>| after.contains_key(y) implies #[trigger] after[y] == expected[y] by {
        if y == x {
            assert(seq![waiter] =~= Seq::<Seq<char>>::empty().push(waiter));
            if s0.dependents().contains_key(x) {
                assert(s0.dependents()[x] + seq![waiter] =~= s0.dependents()[x].push(waiter));
                assert(s0.dependents()[x] + Seq::<Seq<char>>::empty() =~= s0.dependents()[x]);
            } else {
                assert(Seq::<Seq<char>>::empty() + seq![waiter] =~= seq![waiter]);
                assert(Seq::<Seq<char>>::empty() + Seq::<Seq<char>>::empty() =~= Seq::<Seq<char>>::empty());
            }
        }
    }
    assert(after =~= expected);
}

/// The dependencies a resolved extension waits for, gathered in a name
/// map, are its awaited map.
proof fn lemma_awaited_map(s0: ExtensionRepository, deps: Seq<Dependency>, pending: NameMap<(String, bool)>)
    requires
        forall|j: int| 0 <= j < deps.len() ==> !#[trigger] s0.resolution_stops(deps, j),
        pending.view().dom() == s0.awaited_names(deps).to_set(),
        forall|x: Seq<char>| #[trigger] pending.view().contains_key(x) ==> exists|j: int|
            0 <= j < deps.len() && !s0.is_active(deps[j]) && deps[j].spec_name() == x,
        forall|j: int| 0 <= j < deps.len() && !s0.is_active(#[trigger] deps[j])
            ==> pending.view()[deps[j].spec_name()].0@ == deps[j].spec_matcher()
            && pending.view()[deps[j].spec_name()].1 == deps[j].spec_required(),
    ensures
        (awaited_view())(pending) == s0.awaited_map(deps),
{
    let m = (awaited_view())(pending);
    let a = s0.awaited_map(deps);
    assert(m.dom() =~= a.dom());
    assert forall|x: Seq<char>| m.contains_key(x) implies #[trigger] m[x] == a[x] by {
        assert(pending.view().contains_key(x));
        let j = choose|j: int| 0 <= j < deps.len() && !s0.is_active(deps[j]) && deps[j].spec_name() == x;
        let k = choose|k: int| 0 <= k < deps.len() && deps[k].spec_name() == x;
        assert(0 <= k < deps.len() && deps[k].spec_name() == x);
        if j != k {
            if j < k {
                assert(!s0.resolution_stops(deps, k));
                assert(repeats_earlier(deps, k));
            } else {
                assert(!s0.resolution_stops(deps, j));
                assert(repeats_earlier(deps, j));
            }
        }
    }
    assert(m =~= a);
}

/// Resolving a new extension keeps the invariant.
proof fn lemma_resolve_keeps_invariant(s0: ExtensionRepository, e: Extension, pending: Seq<Seq<char>>)
    requires
        s0.wf(),
        s0.idle(),
        !s0.manifests().contains_key(e.name@),
        forall|j: int| 0 <= j < e.dependencies@.len() ==> !#[trigger] s0.resolution_stops(e.dependencies@, j),
        pending == Seq::<Seq<char>>::empty() || (pending == seq![e.name@] && s0.awaited_map(e.dependencies@)
            == Map::<Seq<char>, (Seq<char>, bool)>::empty()),
    ensures
        state_invariant(
            s0.manifests().insert(e.name@, e),
            s0.activated(),
            s0.expected().insert(e.name@, s0.awaited_map(e.dependencies@)),
            s0.resolved().insert(e.name@, s0.accepted_names(e.dependencies@)),
            s0.dependents_awaiting(e.name@, s0.awaited_names(e.dependencies@)),
            pending,
        ),
{
    let name = e.name@;
    let deps = e.dependencies@;
    let manifests = s0.manifests().insert(name, e);
    let expected = s0.expected().insert(name, s0.awaited_map(deps));
    let resolved = s0.resolved().insert(name, s0.accepted_names(deps));
    let awaited = s0.awaited_names(deps);
    let dependents = s0.dependents_awaiting(name, awaited);
    assert(s0.pending().len() == 0);
    assert forall|d: Seq<char>| #[trigger] s0.expected().contains_key(d) implies d != name && manifests[d]
        == s0.manifests()[d] by {
        assert(s0.manifests().contains_key(d));
    }
    assert forall|i: int| 0 <= i < s0.activated().len() implies #[trigger] s0.activated()[i] != name by {
        assert(s0.expected().contains_key(s0.activated()[i]));
    }
    assert(expected.dom() =~= resolved.dom());
    assert forall|x: Seq<char>, j: int|
        #![trigger dependents[x][j]]
        dependents.contains_key(x) && 0 <= j < dependents[x].len()
            implies expected.contains_key(dependents[x][j]) && expected[dependents[x][j]].contains_key(x) by {
        if s0.dependents().contains_key(x) && j < s0.dependents()[x].len() {
            assert(dependents[x][j] == s0.dependents()[x][j]);
            assert(s0.expected().contains_key(s0.dependents()[x][j]));
        } else {
            assert(dependents[x][j] == name);
            assert(awaited.contains(x));
        }
    }
    assert forall|x: Seq<char>| #[trigger] dependents.contains_key(x) implies dependents[x].no_duplicates() by {
        if s0.dependents().contains_key(x) {
            assert forall|j: int| 0 <= j < s0.dependents()[x].len() implies #[trigger] s0.dependents()[x][j] != name by {
                assert(s0.expected().contains_key(s0.dependents()[x][j]));
            }
        }
    }
    assert forall|d: Seq<char>, k: int|
        #![trigger expected[d], manifests[d].dependencies@[k]]
        expected.contains_key(d) && 0 <= k < manifests[d].dependencies@.len()
            implies expected[d].contains_key(manifests[d].dependencies@[k].spec_name())
            || s0.activated().contains(manifests[d].dependencies@[k].spec_name()) by {
        if d == name {
            if !s0.is_active(deps[k]) {
                lemma_awaited_contains(s0, deps, k);
            }
        } else {
            assert(s0.expected().contains_key(d));
            assert(s0.manifests()[d] == manifests[d]);
        }
    }
    assert forall|i: int, k: int|
        #![trigger manifests[s0.activated()[i]].dependencies@[k]]
        0 <= i < s0.activated().len() && 0 <= k < manifests[s0.activated()[i]].dependencies@.len()
            implies s0.activated().take(i).contains(manifests[s0.activated()[i]].dependencies@[k].spec_name()) by {
        assert(s0.expected().contains_key(s0.activated()[i]));
        assert(manifests[s0.activated()[i]] == s0.manifests()[s0.activated()[i]]);
    }
    assert forall|i: int| 0 <= i < pending.len() implies #[trigger] expected.contains_key(pending[i])
        && expected[pending[i]] == Map::<Seq<char>, (Seq<char>, bool)>::empty()
        && !s0.activated().contains(pending[i]) by {
        assert(pending[i] == name);
        if s0.activated().contains(name) {
            let j = choose|j: int| 0 <= j < s0.activated().len() && s0.activated()[j] == name;
            assert(s0.activated()[j] != name);
        }
    }
}

/// A dependency that is waited for is among the awaited names.
proof fn lemma_awaited_contains(s0: ExtensionRepository, deps: Seq<Dependency>, k: int)
    requires
        0 <= k < deps.len(),
        !s0.is_active(deps[k]),
    ensures
        s0.awaited_names(deps).contains(deps[k].spec_name()),
        s0.awaited_map(deps).contains_key(deps[k].spec_name()),
{
    deps.lemma_filter_contains_rev(s0.awaits(), deps[k]);
    assert(deps.contains(deps[k]));
    assert(deps.filter(s0.awaits()).contains(deps[k]));
    let f = deps.filter(s0.awaits());
    let j = choose|j: int| 0 <= j < f.len() && f[j] == deps[k];
    assert(dependency_names(f)[j] == deps[k].spec_name());
}

/// What the invariant says of the extension being activated.
proof fn lemma_pending_facts(s: ExtensionRepository)
    requires
        s.wf(),
        s.activating() is Some,
    ensures
        ({
            let x = s.activating()->0;
            &&& s.expected().contains_key(x)
            &&& s.expected()[x] == Map::<Seq<char>, (Seq<char>, bool)>::empty()
            &&& !s.activated().contains(x)
            &&& !s.due().contains(x)
            &&& s.manifests().contains_key(x)
            &&& s.versions().contains_key(x)
        }),
{
    let x = s.activating()->0;
    let p = s.pending();
    assert(p == s.due().push(x));
    assert(p[p.len() - 1] == x);
    assert(s.expected().contains_key(p[p.len() - 1]));
    if s.due().contains(x) {
        let j = choose|j: int| 0 <= j < s.due().len() && s.due()[j] == x;
        assert(p[j] == p[p.len() - 1]);
    }
}

/// The extension being activated has been added.
proof fn lemma_active_is_added_pending(s: ExtensionRepository, x: Seq<char>)
    requires
        s.wf(),
        s.expected().contains_key(x),
    ensures
        s.manifests().contains_key(x),
        s.versions().contains_key(x),
{
}

/// What the invariant says of the waiters of an extension.
proof fn lemma_waiter_facts(s: ExtensionRepository, x: Seq<char>, i: int)
    requires
        s.wf(),
        s.expected().contains_key(x),
        s.expected()[x] == Map::<Seq<char>, (Seq<char>, bool)>::empty(),
        0 <= i < s.waiters(x).len(),
    ensures
        ({
            let d = s.waiters(x)[i];
            &&& s.expected().contains_key(d)
            &&& s.expected()[d].contains_key(x)
            &&& s.resolved().contains_key(d)
            &&& s.manifests().contains_key(d)
            &&& s.versions().contains_key(d)
            &&& d != x
            &&& !s.activated().contains(d)
            &&& !s.pending().contains(d)
            &&& s.extension_dependencies_expected.view()[d].wf()
        }),
        s.waiters(x).no_duplicates(),
{
    let d = s.waiters(x)[i];
    assert(s.dependents().contains_key(x));
    assert(s.expected().contains_key(s.dependents()[x][i]));
    if s.activated().contains(d) {
        let j = choose|j: int| 0 <= j < s.activated().len() && s.activated()[j] == d;
        assert(s.expected().contains_key(s.activated()[j]));
    }
    if s.pending().contains(d) {
        let j = choose|j: int| 0 <= j < s.pending().len() && s.pending()[j] == d;
        assert(s.expected().contains_key(s.pending()[j]));
    }
    assert(s.extension_dependencies_expected.view().contains_key(d));
}

/// In a sequence without repetitions, the first `i + 1` elements are the
/// first `i` and the one at `i`, which is not among them.
proof fn lemma_take_distinct_step(l: Seq<Seq<char>>, i: int)
    requires
        l.no_duplicates(),
        0 <= i < l.len(),
    ensures
        !l.take(i).contains(l[i]),
        l.take(i + 1).contains(l[i]),
        forall|y: Seq<char>| y != l[i] ==> (#[trigger] l.take(i + 1).contains(y) == l.take(i).contains(y)),
{
    let t0 = l.take(i);
    let t1 = l.take(i + 1);
    if t0.contains(l[i]) {
        let j = choose|j: int| 0 <= j < t0.len() && t0[j] == l[i];
        assert(l[j] == l[i]);
    }
    assert(t1[i] == l[i]);
    assert forall|y: Seq<char>| y != l[i] implies (#[trigger] t1.contains(y) == t0.contains(y)) by {
        if t1.contains(y) {
            let j = choose|j: int| 0 <= j < t1.len() && t1[j] == y;
            assert(t0[j] == y);
        }
        if t0.contains(y) {
            let j = choose|j: int| 0 <= j < t0.len() && t0[j] == y;
            assert(t1[j] == y);
        }
    }
}

/// How the records of going through the waiters grow by one waiter.
proof fn lemma_waiter_step(s: ExtensionRepository, x: Seq<char>, i: int)
    requires
        0 <= i < s.waiters(x).len(),
    ensures
        ({
            let l = s.waiters(x);
            let d = l[i];
            &&& s.completion_mismatches(x, i + 1) == if (s.waiter_rejects_required(x))(d) {
                s.completion_mismatches(x, i).push((s.waiter_mismatch(x))(d))
            } else {
                s.completion_mismatches(x, i)
            }
            &&& l.take(i + 1).filter(s.waiter_accepts(x)) == if (s.waiter_accepts(x))(d) {
                l.take(i).filter(s.waiter_accepts(x)).push(d)
            } else {
                l.take(i).filter(s.waiter_accepts(x))
            }
            &&& l.take(i + 1).filter(s.waiter_completes(x)) == if (s.waiter_completes(x))(d) {
                l.take(i).filter(s.waiter_completes(x)).push(d)
            } else {
                l.take(i).filter(s.waiter_completes(x))
            }
        }),
{
    let l = s.waiters(x);
    l.lemma_take_succ_push(i);
    assert(l.take(i + 1) == l.take(i).push(l[i]));
    lemma_filter_map_push(l.take(i), l[i], s.waiter_rejects_required(x), s.waiter_mismatch(x));
    l.take(i).lemma_filter_push(l[i], s.waiter_accepts(x));
    l.take(i).lemma_filter_push(l[i], s.waiter_completes(x));
}

/// Filtering one more waiter does not change whether another name is kept.
proof fn lemma_filter_contains_step(s: ExtensionRepository, x: Seq<char>, i: int, y: Seq<char>)
    requires
        0 <= i < s.waiters(x).len(),
        y != s.waiters(x)[i],
    ensures
        s.waiters(x).take(i + 1).filter(s.waiter_accepts(x)).contains(y)
            == s.waiters(x).take(i).filter(s.waiter_accepts(x)).contains(y),
{
    let l = s.waiters(x);
    lemma_waiter_step(s, x, i);
    let f0 = l.take(i).filter(s.waiter_accepts(x));
    let f1 = l.take(i + 1).filter(s.waiter_accepts(x));
    if (s.waiter_accepts(x))(l[i]) {
        if f1.contains(y) {
            let j = choose|j: int| 0 <= j < f1.len() && f1[j] == y;
            assert(j < f0.len());
            assert(f0[j] == y);
        }
        if f0.contains(y) {
            let j = choose|j: int| 0 <= j < f0.len() && f0[j] == y;
            assert(f1[j] == y);
        }
    }
}

/// Finishing an activation keeps the invariant: `x` becomes active, the
/// first `reach` of its waiters stop waiting for it, and `due` is what is
/// due afterwards.
proof fn lemma_completion_keeps_invariant(s: ExtensionRepository, x: Seq<char>, upto: int, reach: int, due: Seq<Seq<char>>)
    requires
        s.wf(),
        s.activating() == Some(x),
        0 <= upto <= reach <= s.waiters(x).len(),
        due == Seq::<Seq<char>>::empty() || (upto == s.waiters(x).len() && due == s.due()
            + s.completed_by(x).reverse()),
    ensures
        state_invariant(
            s.manifests(),
            s.activated().push(x),
            s.expected_after(x, reach),
            s.resolved_after(x, upto),
            s.dependents().remove(x),
            due,
        ),
{
    lemma_pending_facts(s);
    let l = s.waiters(x);
    let activated = s.activated().push(x);
    let expected = s.expected_after(x, reach);
    let resolved = s.resolved_after(x, upto);
    let dependents = s.dependents().remove(x);
    assert forall|j: int| 0 <= j < l.len() implies #[trigger] s.expected().contains_key(l[j])
        && s.expected()[l[j]].contains_key(x) && !s.activated().contains(l[j]) && l[j] != x
        && !s.pending().contains(l[j]) by {
        lemma_waiter_facts(s, x, j);
    }
    // Extensions untouched by the activation keep what they wait for.
    assert forall|d: Seq<char>| #[trigger] s.expected().contains_key(d) && !l.contains(d)
        implies expected[d] == s.expected()[d] by {
        if l.take(reach).contains(d) {
            let j = choose|j: int| 0 <= j < l.take(reach).len() && l.take(reach)[j] == d;
            assert(l[j] == d);
        }
    }
    assert(expected.dom() =~= resolved.dom());
    assert forall|y: Seq<char>, j: int|
        #![trigger dependents[y][j]]
        dependents.contains_key(y) && 0 <= j < dependents[y].len()
            implies expected.contains_key(dependents[y][j]) && expected[dependents[y][j]].contains_key(y) by {
        assert(s.dependents()[y][j] == dependents[y][j]);
        assert(s.expected().contains_key(s.dependents()[y][j]));
    }
    assert forall|y: Seq<char>| #[trigger] dependents.contains_key(y) implies dependents[y].no_duplicates() by {
        assert(s.dependents().contains_key(y));
    }
    assert forall|d: Seq<char>, k: int|
        #![trigger expected[d], s.manifests()[d].dependencies@[k]]
        expected.contains_key(d) && 0 <= k < s.manifests()[d].dependencies@.len()
            implies expected[d].contains_key(s.manifests()[d].dependencies@[k].spec_name())
            || activated.contains(s.manifests()[d].dependencies@[k].spec_name()) by {
        let n = s.manifests()[d].dependencies@[k].spec_name();
        assert(s.expected()[d].contains_key(n) || s.activated().contains(n));
        if s.activated().contains(n) {
            let j = choose|j: int| 0 <= j < s.activated().len() && s.activated()[j] == n;
            assert(activated[j] == n);
        } else if n == x {
            assert(activated[s.activated().len() as int] == x);
        }
    }
    assert(activated.no_duplicates()) by {
        assert forall|a: int, b: int| 0 <= a < activated.len() && 0 <= b < activated.len() && a != b
            implies activated[a] != activated[b] by {
            if a < s.activated().len() && b == s.activated().len() {
                assert(s.activated().contains(activated[a]));
            }
            if b < s.activated().len() && a == s.activated().len() {
                assert(s.activated().contains(activated[b]));
            }
        }
    }
    assert forall|i: int| 0 <= i < activated.len() implies #[trigger] expected.contains_key(activated[i])
        && expected[activated[i]] == Map::<Seq<char>, (Seq<char>, bool)>::empty() by {
        if i < s.activated().len() {
            assert(s.expected().contains_key(s.activated()[i]));
            if l.contains(activated[i]) {
                let j = choose|j: int| 0 <= j < l.len() && l[j] == activated[i];
                assert(s.activated().contains(l[j]));
            }
        } else {
            if l.contains(x) {
                let j = choose|j: int| 0 <= j < l.len() && l[j] == x;
            }
        }
    }
    assert forall|i: int, k: int|
        #![trigger s.manifests()[activated[i]].dependencies@[k]]
        0 <= i < activated.len() && 0 <= k < s.manifests()[activated[i]].dependencies@.len()
            implies activated.take(i).contains(s.manifests()[activated[i]].dependencies@[k].spec_name()) by {
        let n = s.manifests()[activated[i]].dependencies@[k].spec_name();
        if i < s.activated().len() {
            assert(s.activated().take(i).contains(n));
            assert(activated.take(i) == s.activated().take(i));
        } else {
            assert(s.expected()[x].contains_key(n) || s.activated().contains(n));
            assert(activated.take(i) =~= s.activated());
        }
    }
    if due.len() > 0 {
        let c = s.completed_by(x);
        let comp = s.waiter_completes(x);
        let p = s.pending();
        assert(p == s.due().push(x));
        assert forall|j: int| 0 <= j < c.len() implies #[trigger] comp(c[j]) && l.contains(c[j])
            && s.expected().contains_key(c[j]) && !s.pending().contains(c[j])
            && !s.activated().contains(c[j]) && c[j] != x by {
            l.lemma_filter_pred(comp, j);
            assert(c.contains(c[j]));
            l.lemma_filter_contains_rev(comp, c[j]);
            let m = choose|m: int| 0 <= m < l.len() && l[m] == c[j];
            lemma_waiter_facts(s, x, m);
        }
        lemma_filter_no_duplicates(l, comp);
        let rev = c.reverse();
        assert forall|j: int| 0 <= j < rev.len() implies #[trigger] rev[j] == c[c.len() - 1 - j] by {}
        assert forall|j: int| 0 <= j < s.due().len() implies #[trigger] s.due()[j] == p[j]
            && s.expected().contains_key(s.due()[j])
            && s.expected()[s.due()[j]] == Map::<Seq<char>, (Seq<char>, bool)>::empty()
            && !s.activated().contains(s.due()[j]) && s.due()[j] != x && !l.contains(s.due()[j]) by {
            assert(s.expected().contains_key(p[j]));
            assert(p[j] != p[p.len() - 1]);
            if l.contains(s.due()[j]) {
                let m = choose|m: int| 0 <= m < l.len() && l[m] == s.due()[j];
                lemma_waiter_facts(s, x, m);
                assert(s.pending().contains(p[j]));
            }
        }
        assert(due.no_duplicates()) by {
            assert forall|a: int, b: int| 0 <= a < due.len() && 0 <= b < due.len() && a != b
                implies due[a] != due[b] by {
                let n = s.due().len();
                if a < n && b < n {
                    assert(p[a] != p[b]);
                } else if a >= n && b >= n {
                    assert(rev[a - n] == c[c.len() - 1 - (a - n)]);
                    assert(rev[b - n] == c[c.len() - 1 - (b - n)]);
                } else if a < n {
                    assert(rev[b - n] == c[c.len() - 1 - (b - n)]);
                    assert(s.pending().contains(p[a]));
                } else {
                    assert(rev[a - n] == c[c.len() - 1 - (a - n)]);
                    assert(s.pending().contains(p[b]));
                }
            }
        }
        assert forall|i: int| 0 <= i < due.len() implies #[trigger] expected.contains_key(due[i])
            && expected[due[i]] == Map::<Seq<char>, (Seq<char>, bool)>::empty()
            && !activated.contains(due[i]) by {
            let n = s.due().len();
            let e = due[i];
            if i < n {
                assert(e == s.due()[i]);
                if l.take(reach).contains(e) {
                    let m = choose|m: int| 0 <= m < l.take(reach).len() && l.take(reach)[m] == e;
                    assert(l[m] == e);
                }
            } else {
                assert(e == c[c.len() - 1 - (i - n)]);
                assert(l.take(reach) == l);
                assert(s.expected()[e].remove(x) =~= Map::<Seq<char>, (Seq<char>, bool)>::empty());
            }
            if activated.contains(e) {
                let j = choose|j: int| 0 <= j < activated.len() && activated[j] == e;
                if j < s.activated().len() {
                    assert(s.activated().contains(e));
                }
            }
        }
    }
}

/// Keeping the elements of a sequence without repetitions that satisfy a
/// predicate gives a sequence without repetitions.
proof fn lemma_filter_no_duplicates<A>(s: Seq<A>, p: spec_fn(A) -> bool)
    requires
        s.no_duplicates(),
    ensures
        s.filter(p).no_duplicates(),
    decreases s.len(),
{
    if s.len() > 0 {
        let t = s.drop_last();
        assert(t.no_duplicates());
        lemma_filter_no_duplicates(t, p);
        assert(s == t.push(s.last()));
        t.lemma_filter_push(s.last(), p);
        if p(s.last()) {
            let f = t.filter(p);
            assert(!f.contains(s.last())) by {
                if f.contains(s.last()) {
                    t.lemma_filter_contains_rev(p, s.last());
                    let j = choose|j: int| 0 <= j < t.len() && t[j] == s.last();
                    assert(s[j] == s[s.len() - 1]);
                }
            }
            assert forall|a: int, b: int| 0 <= a < f.push(s.last()).len() && 0 <= b < f.push(s.last()).len()
                && a != b implies f.push(s.last())[a] != f.push(s.last())[b] by {
                if a == f.len() {
                    assert(f.contains(f[b]));
                } else if b == f.len() {
                    assert(f.contains(f[a]));
                }
            }
        }
    }
}

/// Storing a new manifest leaves the versions of the other extensions as
/// they were.
proof fn lemma_versions_after_insert(s0: ExtensionRepository, s1: ExtensionRepository, name: Seq<char>, e: Extension)
    requires
        s1.manifests() == s0.manifests().insert(name, e),
    ensures
        forall|x: Seq<char>| x != name && s0.versions().contains_key(x)
            ==> s1.versions().contains_key(x) && s1.versions()[x] == s0.versions()[x],
{
}

/// An active extension has been added.
proof fn lemma_active_is_added(s: ExtensionRepository, name: Seq<char>)
    requires
        s.wf(),
        s.activated().contains(name),
    ensures
        s.versions().contains_key(name),
        s.manifests().contains_key(name),
        s.expected().contains_key(name),
{
    let i = choose|i: int| 0 <= i < s.activated().len() && s.activated()[i] == name;
    assert(s.expected().contains_key(s.activated()[i]));
}

/// The names of `deps.take(k + 1)` extend those of `deps.take(k)`.
proof fn lemma_names_take_succ(deps: Seq<Dependency>, k: int)
    requires
        0 <= k < deps.len(),
    ensures
        dependency_names(deps.take(k + 1)) == dependency_names(deps.take(k)).push(deps[k].spec_name()),
{
    deps.lemma_take_succ_push(k);
    deps.take(k).lemma_push_map_commute(dependency_name(), deps[k]);
}

impl ExtensionRepository {
    /// The host reports that the extension it was activating has been
    /// initialised. The extension is recorded as active, and each extension
    /// waiting for it, in the order they started waiting, stops waiting for
    /// it and checks its version: a required dependency of a version not
    /// accepted is recorded as a mismatch, an accepted one is recorded as
    /// found, and an extension that accepted it and waited for nothing else
    /// becomes due. A version that cannot be checked stops this with
    /// semver's message and abandons the activations due. Otherwise the
    /// next due extension, if any, is named for activation; the extensions
    /// that became due here come next, in order, before those due earlier.
    pub fn activation_succeeded(&mut self) -> (r: Result<Activation, RepositoryError>)
        requires
            old(self).wf(),
            old(self).activating() is Some,
        ensures
            final(self).wf(),
            repository_step(*old(self), *final(self), None),
            final(self).spec_locked() == old(self).spec_locked(),
            final(self).manifests() == old(self).manifests(),
            old(self).tracks_activation() ==> final(self).tracks_activation(),
            ({
                let x = old(self).activating()->0;
                let waiters = old(self).waiters(x);
                let stop = old(self).completion_stop(x);
                &&& final(self).activated() == old(self).activated().push(x)
                &&& final(self).dependents() == old(self).dependents().remove(x)
                &&& final(self).mismatches() == old(self).mismatches()
                    + old(self).completion_mismatches(x, stop)
                &&& final(self).resolved() == old(self).resolved_after(x, stop)
                &&& stop < waiters.len() ==> {
                    &&& final(self).expected() == old(self).expected_after(x, stop + 1)
                    &&& r matches Err(RepositoryError::Version(m))
                        && old(self).waiter_check(x, waiters[stop]) == Err::<bool, Seq<char>>(m@)
                    &&& final(self).idle()
                    &&& final(self).due().len() == 0
                }
                &&& stop == waiters.len() ==> {
                    let due = old(self).due() + old(self).completed_by(x).reverse();
                    &&& final(self).expected() == old(self).expected_after(x, stop)
                    &&& if due.len() == 0 {
                        r matches Ok(Activation::Idle) && final(self).idle()
                    } else {
                        &&& r matches Ok(Activation::Activate(n)) && n@ == due.last()
                        &&& final(self).activating() == Some(due.last())
                        &&& final(self).due() == due.drop_last()
                    }
                }
            }),
    {
        let ghost s = *self;
        let x = match self.activating.take() {
            Some(n) => n,
            None => return Ok(Activation::Idle),
        };
        let ghost xv = x@;
        proof {
            lemma_pending_facts(s);
            lemma_active_is_added_pending(s, xv);
        }
        let ghost activated_before = self.activated_extensions@;
        self.activated_extensions.push(x.clone());
        proof {
            lemma_names_push(activated_before, x);
        }
        let r = self.complete(x, Ghost(s));
        proof {
            if s.tracks_activation() {
                lemma_success_keeps_tracking(s, *self);
            }
        }
        r
    }

    /// What follows the activation of `x`, as `activation_succeeded`
    /// describes; `s` is the repository before the host reported it.
    fn complete(&mut self, x: String, Ghost(s): Ghost<ExtensionRepository>) -> (r: Result<Activation, RepositoryError>)
        requires
            s.wf(),
            s.activating() == Some(x@),
            old(self).locked == s.locked,
            old(self).all_extensions == s.all_extensions,
            names(old(self).activated_extensions@) == s.activated().push(x@),
            old(self).extensions_dependents_expected == s.extensions_dependents_expected,
            old(self).extension_dependencies_expected == s.extension_dependencies_expected,
            old(self).extension_dependencies_resolved == s.extension_dependencies_resolved,
            old(self).version_mismatches == s.version_mismatches,
            old(self).activating is None,
            old(self).due == s.due,
        ensures
            final(self).wf(),
            final(self).spec_locked() == s.spec_locked(),
            final(self).manifests() == s.manifests(),
            ({
                let x = s.activating()->0;
                let waiters = s.waiters(x);
                let stop = s.completion_stop(x);
                &&& final(self).activated() == s.activated().push(x)
                &&& final(self).dependents() == s.dependents().remove(x)
                &&& final(self).mismatches() == s.mismatches()
                    + s.completion_mismatches(x, stop)
                &&& final(self).resolved() == s.resolved_after(x, stop)
                &&& stop < waiters.len() ==> {
                    &&& final(self).expected() == s.expected_after(x, stop + 1)
                    &&& r matches Err(RepositoryError::Version(m))
                        && s.waiter_check(x, waiters[stop]) == Err::<bool, Seq<char>>(m@)
                    &&& final(self).idle()
                    &&& final(self).due().len() == 0
                }
                &&& stop == waiters.len() ==> {
                    let due = s.due() + s.completed_by(x).reverse();
                    &&& final(self).expected() == s.expected_after(x, stop)
                    &&& if due.len() == 0 {
                        r matches Ok(Activation::Idle) && final(self).idle()
                    } else {
                        &&& r matches Ok(Activation::Activate(n)) && n@ == due.last()
                        &&& final(self).activating() == Some(due.last())
                        &&& final(self).due() == due.drop_last()
                    }
                }
            }),
    {
        let ghost xv = x@;
        proof {
            lemma_pending_facts(s);
            lemma_active_is_added_pending(s, xv);
        }
        let ghost dependents_before = self.extensions_dependents_expected;
        let waiting: Vec<String> = match self.extensions_dependents_expected.remove(&x) {
            Some(list) => list,
            None => Vec::new(),
        };
        proof {
            lemma_map_values_remove(dependents_before.view(), xv, names_view());
            assert(names(waiting@) == s.waiters(xv)) by {
                if !s.dependents().contains_key(xv) {
                    assert(names(waiting@) =~= Seq::<Seq<char>>::empty());
                }
            }
            assert(self.dependents() == s.dependents().remove(xv));
        }
        let ghost waiters = s.waiters(xv);
        let mut to_complete: Vec<String> = Vec::new();
        let count = waiting.len();
        let mut i: usize = 0;
        proof {
            assert(waiters.take(0) =~= Seq::<Seq<char>>::empty());
            assert(self.expected() =~= s.expected_after(xv, 0));
            assert(self.resolved() =~= s.resolved_after(xv, 0)) by {
                assert(waiters.take(0).filter(s.waiter_accepts(xv)) =~= Seq::<Seq<char>>::empty());
            }
            assert(waiters.take(0).filter(s.waiter_rejects_required(xv)) =~= Seq::<Seq<char>>::empty());
            assert(self.mismatches() =~= s.mismatches() + s.completion_mismatches(xv, 0));
            assert(names(to_complete@) =~= waiters.take(0).filter(s.waiter_completes(xv)));
        }
        while i < count
            invariant
                s.wf(),
                s.activating() == Some(xv),
                x@ == xv,
                waiters == s.waiters(xv),
                count == waiters.len(),
                names(waiting@) == waiters,
                waiters.no_duplicates(),
                i <= count,
                self.locked == s.locked,
                self.all_extensions == s.all_extensions,
                names(self.activated_extensions@) == s.activated().push(xv),
                self.extensions_dependents_expected.wf(),
                self.dependents() == s.dependents().remove(xv),
                self.activating is None,
                self.due == s.due,
                self.extension_dependencies_expected.wf(),
                forall|d: Seq<char>| #[trigger] self.extension_dependencies_expected.view().contains_key(d)
                    ==> self.extension_dependencies_expected.view()[d].wf(),
                self.extension_dependencies_resolved.wf(),
                self.expected() == s.expected_after(xv, i as int),
                self.resolved() == s.resolved_after(xv, i as int),
                self.mismatches() == s.mismatches() + s.completion_mismatches(xv, i as int),
                names(to_complete@) == waiters.take(i as int).filter(s.waiter_completes(xv)),
                forall|j: int| 0 <= j < i ==> !#[trigger] (s.waiter_fails(xv))(j),
            decreases count - i,
        {
            let dependent = &waiting[i];
            let ghost d = dependent@;
            proof {
                lemma_pending_facts(s);
                assert(waiters[i as int] == d);
                lemma_waiter_facts(s, xv, i as int);
                lemma_take_distinct_step(waiters, i as int);
                assert(s.versions().contains_key(d));
                assert(self.manifests() == s.manifests());
                assert(self.versions().contains_key(d));
                assert(s.expected_after(xv, i as int).contains_key(d));
                assert(self.expected().contains_key(d));
                assert(self.extension_dependencies_expected.view().contains_key(d));
                assert(!waiters.take(i as int).contains(d));
                assert(s.expected_after(xv, i as int)[d] == s.expected()[d]);
                assert(self.expected()[d] == (awaited_view())(self.extension_dependencies_expected.view()[d]));
                assert(self.extension_dependencies_expected.view()[d].view().contains_key(xv));
                assert(s.resolved_after(xv, i as int).contains_key(d));
                assert(self.resolved().contains_key(d));
                assert(self.extension_dependencies_resolved.view().contains_key(d));
            }
            let dependent_version = match self.version_of(dependent) {
                Some(v) => v,
                None => return Ok(Activation::Idle),
            };
            let ghost expected_before = self.extension_dependencies_expected;
            let mut awaited = match self.extension_dependencies_expected.remove(dependent) {
                Some(m) => m,
                None => return Ok(Activation::Idle),
            };
            let ghost awaited_before = awaited;
            let (matcher, required) = match awaited.remove(&x) {
                Some(p) => p,
                None => return Ok(Activation::Idle),
            };
            proof {
                assert(matcher@ == s.expected()[d][xv].0);
                assert(required == s.expected()[d][xv].1);
            }
            let now_empty = awaited.is_empty();
            self.extension_dependencies_expected.insert(dependent.clone(), awaited);
            proof {
                lemma_map_values_remove(awaited_before.view(), xv, pair_view());
                lemma_map_values_remove(expected_before.view(), d, awaited_view());
                lemma_map_values_insert(expected_before.view().remove(d), d, awaited, awaited_view());
                assert(self.expected() =~= s.expected_after(xv, i + 1)) by {
                    assert forall|y: Seq<char>| #[trigger] self.expected().contains_key(y) implies
                        self.expected()[y] == s.expected_after(xv, i + 1)[y] by {
                        if y != d {
                            assert(waiters.take(i + 1).contains(y) == waiters.take(i as int).contains(y));
                        }
                    }
                }
                assert(now_empty == (s.expected()[d].dom() == set![xv])) by {
                    let before_map = s.expected()[d];
                    assert(before_map == awaited_before.view().map_values(pair_view()));
                    assert(before_map.remove(xv) == awaited.view().map_values(pair_view()));
                    assert(before_map.remove(xv).dom() =~= awaited.view().dom());
                    assert(before_map.contains_key(xv));
                    if now_empty {
                        assert(awaited.view().dom() =~= Set::<Seq<char>>::empty());
                        assert forall|y: Seq<char>| before_map.dom().contains(y) implies y == xv by {
                            if y != xv {
                                assert(before_map.remove(xv).dom().contains(y));
                            }
                        }
                        assert(before_map.dom() =~= set![xv]);
                    } else {
                        if before_map.dom() == set![xv] {
                            assert(before_map.remove(xv).dom() =~= Set::<Seq<char>>::empty());
                            assert(awaited.view() =~= Map::<Seq<char>, (String, bool)>::empty());
                        }
                    }
                }
            }
            match self.match_dependency(&x, &matcher) {
                Err(err) => {
                    self.due = Vec::new();
                    proof {
                        assert((s.waiter_fails(xv))(i as int));
                        lemma_first_index_at(count as int, s.waiter_fails(xv), i as int);
                        lemma_completion_keeps_invariant(s, xv, i as int, i as int + 1, Seq::<Seq<char>>::empty());
                        assert(self.activated() == s.activated().push(xv));
                        assert(self.due() =~= Seq::<Seq<char>>::empty());
                        assert(self.pending() =~= Seq::<Seq<char>>::empty());
                    }
                    return Err(err);
                },
                Ok(Some(received)) => {
                    if required {
                        let ghost mismatches_before = self.version_mismatches@;
                        self.version_mismatches.push(
                            VersionMismatch {
                                extension: dependent.clone(),
                                extension_version: dependent_version,
                                dependency: x.clone(),
                                dependency_version: received,
                                version_matcher: matcher,
                            },
                        );
                        proof {
                            mismatches_before.lemma_push_map_commute(
                                |m: VersionMismatch| m.view(),
                                self.version_mismatches@.last(),
                            );
                            assert(self.version_mismatches@ == mismatches_before.push(self.version_mismatches@.last()));
                        }
                    }
                    proof {
                        lemma_waiter_step(s, xv, i as int);
                        assert(self.mismatches() =~= s.mismatches() + s.completion_mismatches(xv, i + 1));
                        assert(self.resolved() =~= s.resolved_after(xv, i + 1));
                    }
                },
                Ok(None) => {
                    let ghost resolved_before = self.extension_dependencies_resolved;
                    let mut found = match self.extension_dependencies_resolved.remove(dependent) {
                        Some(v) => v,
                        None => return Ok(Activation::Idle),
                    };
                    let ghost found_before = found@;
                    found.push(x.clone());
                    self.extension_dependencies_resolved.insert(dependent.clone(), found);
                    if now_empty {
                        let ghost to_complete_before = to_complete@;
                        to_complete.push(dependent.clone());
                        proof {
                            lemma_names_push(to_complete_before, *dependent);
                        }
                    }
                    proof {
                        lemma_names_push(found_before, x);
                        lemma_map_values_remove(resolved_before.view(), d, names_view());
                        lemma_map_values_insert(resolved_before.view().remove(d), d, found, names_view());
                        lemma_waiter_step(s, xv, i as int);
                        assert(self.mismatches() =~= s.mismatches() + s.completion_mismatches(xv, i + 1));
                        assert(self.resolved() =~= s.resolved_after(xv, i + 1)) by {
                            assert forall|y: Seq<char>| #[trigger] self.resolved().contains_key(y) implies
                                self.resolved()[y] == s.resolved_after(xv, i + 1)[y] by {
                                if y != d {
                                    lemma_filter_contains_step(s, xv, i as int, y);
                                    assert(self.resolved()[y] == (names_view())(resolved_before.view()[y]));
                                    assert(resolved_before.view().map_values(names_view())[y] == s.resolved_after(xv, i as int)[y]);
                                } else {
                                    let acc = s.waiter_accepts(xv);
                                    assert(acc(d));
                                    let f0 = waiters.take(i as int).filter(acc);
                                    if f0.contains(d) {
                                        waiters.take(i as int).lemma_filter_contains_rev(acc, d);
                                    }
                                    assert(waiters.take(i + 1).filter(acc) == f0.push(d));
                                    assert(waiters.take(i + 1).filter(acc).contains(d)) by {
                                        assert(f0.push(d)[f0.len() as int] == d);
                                    }
                                    assert(resolved_before.view().map_values(names_view())[d] == s.resolved_after(xv, i as int)[d]);
                                    assert(s.resolved_after(xv, i as int)[d] == s.resolved()[d]);
                                    assert(names(found_before) == s.resolved()[d]);
                                }
                            }
                        }
                    }
                },
            }
            i = i + 1;
        }
        proof {
            waiters.lemma_take_len();
            lemma_first_index_at(count as int, s.waiter_fails(xv), count as int);
            assert(self.activated() == s.activated().push(xv));
            assert(self.locked == s.locked);
        }
        // The extensions that became due are activated next, in order.
        let ghost due_before = self.due@;
        let ghost s3 = *self;
        let mut j = to_complete.len();
        #[verifier::loop_isolation(false)]
        while j > 0
            invariant
                self.locked == s3.locked,
                self.all_extensions == s3.all_extensions,
                self.activated_extensions == s3.activated_extensions,
                self.extension_dependencies_resolved == s3.extension_dependencies_resolved,
                self.extension_dependencies_expected == s3.extension_dependencies_expected,
                self.extensions_dependents_expected == s3.extensions_dependents_expected,
                self.version_mismatches == s3.version_mismatches,
                self.activating == s3.activating,
                j <= to_complete@.len(),
                names(self.due@) == names(due_before) + names(to_complete@).skip(j as int).reverse(),
            decreases j,
        {
            j = j - 1;
            let ghost due_step = self.due@;
            self.due.push(to_complete[j].clone());
            proof {
                lemma_names_push(due_step, to_complete@[j as int]);
                assert(names(to_complete@).skip(j as int) =~= seq![names(to_complete@)[j as int]] + names(to_complete@).skip(j + 1));
                assert(names(to_complete@).skip(j as int).reverse() =~= names(to_complete@).skip(j + 1).reverse().push(names(to_complete@)[j as int]));
            }
        }
        proof {
            assert(names(to_complete@).skip(0) == names(to_complete@));
            assert(self.locked == s.locked);
            assert(self.activated() == s.activated().push(xv));
        }
        let ghost due_all = names(self.due@);
        let r = match self.due.pop() {
            Some(next) => {
                self.activating = Some(next.clone());
                Ok(Activation::Activate(next))
            },
            None => Ok(Activation::Idle),
        };
        proof {
            lemma_completion_keeps_invariant(s, xv, count as int, count as int, due_all);
            assert(self.activated() == s.activated().push(xv));
            assert(self.pending() =~= due_all) by {
                if due_all.len() > 0 {
                    assert(names(self.due@) =~= due_all.drop_last());
                } else {
                    assert(names(self.due@) =~= due_all);
                }
            }
            if due_all.len() > 0 {
                assert(names(self.due@) =~= due_all.drop_last());
            }
        }
        r
    }


    /// The host reports that the initialisation of the extension it was
    /// activating failed. The extension is not activated, and the
    /// activations that were due after it are abandoned.
    pub fn activation_failed(&mut self)
        requires
            old(self).wf(),
        ensures
            final(self).wf(),
            repository_step(*old(self), *final(self), None),
            final(self).idle(),
            final(self).due().len() == 0,
            final(self).spec_locked() == old(self).spec_locked(),
            final(self).manifests() == old(self).manifests(),
            final(self).activated() == old(self).activated(),
            final(self).expected() == old(self).expected(),
            final(self).resolved() == old(self).resolved(),
            final(self).dependents() == old(self).dependents(),
            final(self).mismatches() == old(self).mismatches(),
    {
        let ghost s = *self;
        self.activating = None;
        self.due = Vec::new();
        proof {
            assert(self.due() =~= Seq::<Seq<char>>::empty());
            assert(self.pending() =~= Seq::<Seq<char>>::empty());
            assert(self.manifests() == s.manifests());
            assert(self.activated() == s.activated());
            assert(self.expected() == s.expected());
            assert(self.resolved() == s.resolved());
            assert(self.dependents() == s.dependents());
        }
    }
}

impl ExtensionRepository {
    /// The required dependencies the resolved extension `d` still waits
    /// for.
    pub open spec fn missing_required(&self, d: Seq<char>) -> Set<Seq<char>> {
        Set::new(|k: Seq<char>| self.expected()[d].contains_key(k) && self.expected()[d][k].1)
    }

    /// The extensions that were resolved but are still waiting for some
    /// dependency, each with its version and the required dependencies it
    /// waits for. Every such extension is listed once.
    pub fn problems(&self) -> (r: Vec<Problem>)
        requires
            self.wf(),
        ensures
            forall|i: int| 0 <= i < r@.len() ==> {
                let p = #[trigger] r@[i];
                &&& self.expected().contains_key(p.extension@)
                &&& self.expected()[p.extension@] != Map::<Seq<char>, (Seq<char>, bool)>::empty()
                &&& p.version@ == self.versions()[p.extension@]
                &&& names(p.missing@).no_duplicates()
                &&& names(p.missing@).to_set() == self.missing_required(p.extension@)
            },
            forall|d: Seq<char>| #[trigger] self.expected().contains_key(d)
                && self.expected()[d] != Map::<Seq<char>, (Seq<char>, bool)>::empty()
                ==> exists|i: int| 0 <= i < r@.len() && r@[i].extension@ == d,
            forall|a: int, b: int| 0 <= a < r@.len() && 0 <= b < r@.len() && a != b
                ==> r@[a].extension@ != r@[b].extension@,
    {
        let ghost keys = self.extension_dependencies_expected.keys();
        proof {
            self.extension_dependencies_expected.lemma_keys_distinct();
        }
        let mut r: Vec<Problem> = Vec::new();
        let n = self.extension_dependencies_expected.len();
        let mut i: usize = 0;
        while i < n
            invariant
                self.wf(),
                keys == self.extension_dependencies_expected.keys(),
                keys.no_duplicates(),
                self.extension_dependencies_expected.view().dom() == keys.to_set(),
                n == keys.len(),
                i <= n,
                forall|j: int| 0 <= j < r@.len() ==> {
                    let p = #[trigger] r@[j];
                    &&& self.expected().contains_key(p.extension@)
                    &&& self.expected()[p.extension@] != Map::<Seq<char>, (Seq<char>, bool)>::empty()
                    &&& p.version@ == self.versions()[p.extension@]
                    &&& names(p.missing@).no_duplicates()
                    &&& names(p.missing@).to_set() == self.missing_required(p.extension@)
                },
                forall|j: int| 0 <= j < r@.len() ==> exists|m: int| 0 <= m < i && keys[m] == #[trigger] r@[j].extension@,
                forall|m: int| 0 <= m < i && self.expected()[#[trigger] keys[m]] != Map::<Seq<char>, (Seq<char>, bool)>::empty()
                    ==> exists|j: int| 0 <= j < r@.len() && r@[j].extension@ == keys[m],
                forall|a: int, b: int| 0 <= a < r@.len() && 0 <= b < r@.len() && a != b
                    ==> r@[a].extension@ != r@[b].extension@,
            decreases n - i,
        {
            let extension = self.extension_dependencies_expected.key_at(i);
            let awaited = self.extension_dependencies_expected.value_at_index(i);
            proof {
                assert(self.extension_dependencies_expected.view().contains_key(keys[i as int]));
                assert(awaited.wf());
                assert(self.expected()[keys[i as int]] == (awaited_view())(*awaited));
            }
            if !awaited.is_empty() {
                let missing = required_keys(awaited);
                let version = match self.version_of(extension) {
                    Some(v) => v,
                    None => String::new(),
                };
                let ghost r_before = r@;
                proof {
                    assert(self.expected().contains_key(extension@));
                    assert(self.manifests().contains_key(extension@));
                    assert(names(missing@).to_set() =~= self.missing_required(extension@));
                    assert(self.expected()[extension@] != Map::<Seq<char>, (Seq<char>, bool)>::empty()) by {
                        if self.expected()[extension@] == Map::<Seq<char>, (Seq<char>, bool)>::empty() {
                            assert(awaited.view().dom() =~= self.expected()[extension@].dom());
                            assert(awaited.view() =~= Map::<Seq<char>, (String, bool)>::empty());
                        }
                    }
                }
                r.push(Problem { extension: extension.clone(), version, missing });
                proof {
                    assert forall|a: int, b: int| 0 <= a < r@.len() && 0 <= b < r@.len() && a != b
                        implies r@[a].extension@ != r@[b].extension@ by {
                        if a == r_before.len() || b == r_before.len() {
                            let other = if a == r_before.len() { b } else { a };
                            assert(r@[other] == r_before[other]);
                            let m = choose|m: int| 0 <= m < i && keys[m] == r_before[other].extension@;
                            assert(keys[m] != keys[i as int]);
                        }
                    }
                    assert forall|j: int| 0 <= j < r@.len() implies exists|m: int| 0 <= m < i + 1 && keys[m] == #[trigger] r@[j].extension@ by {
                        if j < r_before.len() {
                            assert(r@[j] == r_before[j]);
                            let m = choose|m: int| 0 <= m < i && keys[m] == r_before[j].extension@;
                        } else {
                            assert(keys[i as int] == r@[j].extension@);
                        }
                    }
                    assert forall|m: int| 0 <= m < i + 1 && self.expected()[#[trigger] keys[m]] != Map::<Seq<char>, (Seq<char>, bool)>::empty()
                        implies exists|j: int| 0 <= j < r@.len() && r@[j].extension@ == keys[m] by {
                        if m < i {
                            let j = choose|j: int| 0 <= j < r_before.len() && r_before[j].extension@ == keys[m];
                            assert(r@[j] == r_before[j]);
                        } else {
                            assert(r@[r_before.len() as int].extension@ == keys[m]);
                        }
                    }
                }
            } else {
                proof {
                    assert(self.expected()[keys[i as int]] =~= Map::<Seq<char>, (Seq<char>, bool)>::empty());
                }
            }
            i = i + 1;
        }
        proof {
            assert forall|d: Seq<char>| #[trigger] self.expected().contains_key(d)
                && self.expected()[d] != Map::<Seq<char>, (Seq<char>, bool)>::empty()
                implies exists|j: int| 0 <= j < r@.len() && r@[j].extension@ == d by {
                assert(keys.to_set().contains(d));
                let m = choose|m: int| 0 <= m < keys.len() && keys[m] == d;
                assert(self.expected()[keys[m]] != Map::<Seq<char>, (Seq<char>, bool)>::empty());
            }
        }
        r
    }
}

/// The names of the required dependencies in a map of awaited ones, each
/// once.
fn required_keys(awaited: &NameMap<(String, bool)>) -> (missing: Vec<String>)
    requires
        awaited.wf(),
    ensures
        names(missing@).no_duplicates(),
        names(missing@).to_set() == Set::new(
            |k: Seq<char>| awaited.view().contains_key(k) && awaited.view()[k].1,
        ),
{
    let ghost keys = awaited.keys();
    proof {
        awaited.lemma_keys_distinct();
    }
    let mut missing: Vec<String> = Vec::new();
    let n = awaited.len();
    let mut j: usize = 0;
    while j < n
        invariant
            awaited.wf(),
            keys == awaited.keys(),
            keys.no_duplicates(),
            awaited.view().dom() == keys.to_set(),
            n == keys.len(),
            j <= n,
            names(missing@).no_duplicates(),
            forall|x: Seq<char>| #[trigger] names(missing@).contains(x) <==> exists|m: int|
                0 <= m < j && keys[m] == x && awaited.view()[x].1,
        decreases n - j,
    {
        let key = awaited.key_at(j);
        let value = awaited.value_at_index(j);
        if value.1 {
            let ghost before = missing@;
            missing.push(key.clone());
            proof {
                lemma_names_push(before, *key);
                assert(!names(before).contains(key@)) by {
                    if names(before).contains(key@) {
                        let m = choose|m: int| 0 <= m < j && keys[m] == key@ && awaited.view()[key@].1;
                        assert(keys[m] == keys[j as int]);
                    }
                }
                assert forall|x: Seq<char>| #[trigger] names(missing@).contains(x) <==> exists|m: int|
                    0 <= m < j + 1 && keys[m] == x && awaited.view()[x].1 by {
                    if names(missing@).contains(x) {
                        let t = choose|t: int| 0 <= t < names(missing@).len() && names(missing@)[t] == x;
                        if t < before.len() {
                            assert(names(before)[t] == x);
                            assert(names(before).contains(x));
                        }
                    }
                    if exists|m: int| 0 <= m < j + 1 && keys[m] == x && awaited.view()[x].1 {
                        let m = choose|m: int| 0 <= m < j + 1 && keys[m] == x && awaited.view()[x].1;
                        if m < j {
                            assert(names(before).contains(x));
                            let t = choose|t: int| 0 <= t < names(before).len() && names(before)[t] == x;
                            assert(names(missing@)[t] == x);
                        } else {
                            assert(names(missing@)[before.len() as int] == x);
                        }
                    }
                }
            }
        } else {
            proof {
                assert forall|x: Seq<char>| #[trigger] names(missing@).contains(x) <==> exists|m: int|
                    0 <= m < j + 1 && keys[m] == x && awaited.view()[x].1 by {
                    if exists|m: int| 0 <= m < j + 1 && keys[m] == x && awaited.view()[x].1 {
                        let m = choose|m: int| 0 <= m < j + 1 && keys[m] == x && awaited.view()[x].1;
                        if m == j {
                            assert(!awaited.view()[x].1);
                        }
                    }
                }
            }
        }
        j = j + 1;
    }
    proof {
        assert forall|k: Seq<char>| names(missing@).to_set().contains(k) == (awaited.view().contains_key(k)
            && awaited.view()[k].1) by {
            if awaited.view().contains_key(k) && awaited.view()[k].1 {
                assert(keys.to_set().contains(k));
                let m = choose|m: int| 0 <= m < keys.len() && keys[m] == k;
            }
        }
        assert(names(missing@).to_set() =~= Set::new(
            |k: Seq<char>| awaited.view().contains_key(k) && awaited.view()[k].1,
        ));
    }
    missing
}

/// The strings of `list` with `sep` between each two of them.
pub open spec fn seq_join(list: Seq<Seq<char>>, sep: Seq<char>) -> Seq<char>
    decreases list.len(),
{
    if list.len() == 0 {
        Seq::empty()
    } else if list.len() == 1 {
        list[0]
    } else {
        seq_join(list.drop_last(), sep) + sep + list.last()
    }
}

/// Joining two nonempty lists one after the other is joining each and
/// putting the separator between the two results; a single string joins
/// to itself and no string to nothing.
pub proof fn law_join_concatenates(a: Seq<Seq<char>>, b: Seq<Seq<char>>, sep: Seq<char>)
    ensures
        seq_join(Seq::<Seq<char>>::empty(), sep) == Seq::<char>::empty(),
        a.len() == 1 ==> seq_join(a, sep) == a[0],
        a.len() > 0 && b.len() > 0 ==> seq_join(a + b, sep) == seq_join(a, sep) + sep + seq_join(b, sep),
    decreases b.len(),
{
    if a.len() > 0 && b.len() > 0 {
        let ab = a + b;
        if b.len() == 1 {
            assert(ab.drop_last() =~= a);
            assert(ab.last() == b[0]);
        } else {
            law_join_concatenates(a, b.drop_last(), sep);
            assert(ab.drop_last() =~= a + b.drop_last());
            assert(ab.last() == b.last());
            assert(seq_join(ab, sep) == seq_join(a + b.drop_last(), sep) + sep + b.last());
            assert(seq_join(b, sep) == seq_join(b.drop_last(), sep) + sep + b.last());
            assert(seq_join(ab, sep) =~= seq_join(a, sep) + sep + seq_join(b, sep));
        }
    }
}

/// Joins the strings of `list` with `sep` between each two of them.
pub fn join(list: &Vec<String>, sep: &str) -> (r: String)
    ensures
        r@ == seq_join(names(list@), sep@),
{
    let mut r = String::new();
    let n = list.len();
    let mut i: usize = 0;
    while i < n
        invariant
            n == list@.len(),
            i <= n,
            r@ == seq_join(names(list@).take(i as int), sep@),
        decreases n - i,
    {
        proof {
            assert(names(list@).take(i + 1).drop_last() =~= names(list@).take(i as int));
            assert(names(list@).take(i + 1).last() == list@[i as int]@);
            if i == 0 {
                assert(names(list@).take(0) =~= Seq::<Seq<char>>::empty());
            }
        }
        if i != 0 {
            r.append(sep);
        }
        r.append(list[i].as_str());
        proof {
            if i == 0 {
                assert(names(list@).take(1).len() == 1);
                assert(r@ =~= names(list@).take(1)[0]);
            }
        }
        i = i + 1;
    }
    proof {
        assert(names(list@).take(n as int) =~= names(list@));
    }
    r
}

impl Problem {
    /// How the problem is reported: the extension, its version, and the
    /// required dependencies it still waits for.
    pub fn message(&self) -> (m: String)
        ensures
            m@ == "Extension '"@ + self.extension@ + "@"@ + self.version@
                + "' was not activated, missing '"@ + seq_join(names(self.missing@), "', '"@) + "'"@,
    {
        let mut m = String::from_str("Extension '");
        m.append(self.extension.as_str());
        m.append("@");
        m.append(self.version.as_str());
        m.append("' was not activated, missing '");
        let joined = join(&self.missing, "', '");
        m.append(joined.as_str());
        m.append("'");
        m
    }
}

/// A filter that keeps every element keeps the sequence; one that keeps
/// none leaves nothing.
proof fn lemma_filter_all<A>(s: Seq<A>, p: spec_fn(A) -> bool)
    ensures
        (forall|i: int| 0 <= i < s.len() ==> #[trigger] p(s[i])) ==> s.filter(p) == s,
        (forall|i: int| 0 <= i < s.len() ==> !#[trigger] p(s[i])) ==> s.filter(p) == Seq::<A>::empty(),
    decreases s.len(),
{
    reveal(Seq::filter);
    if s.len() > 0 {
        lemma_filter_all(s.drop_last(), p);
        if forall|i: int| 0 <= i < s.len() ==> #[trigger] p(s[i]) {
            assert forall|i: int| 0 <= i < s.drop_last().len() implies #[trigger] p(s.drop_last()[i]) by {
                assert(p(s[i]));
            }
            assert(s.drop_last().push(s.last()) =~= s);
        }
        if forall|i: int| 0 <= i < s.len() ==> !#[trigger] p(s[i]) {
            assert forall|i: int| 0 <= i < s.drop_last().len() implies !#[trigger] p(s.drop_last()[i]) by {
                assert(!p(s[i]));
            }
            assert(!p(s[s.len() - 1]));
        }
    }
}

impl ExtensionRepository {
    /// Whether injecting an extension with dependencies `deps` stops at
    /// position `k`: the dependency is not active, or its version is not
    /// accepted or cannot be checked.
    pub open spec fn injection_stops(&self, deps: Seq<Dependency>, k: int) -> bool {
        !self.is_active(deps[k]) || self.found_check(deps[k]) != Ok::<bool, Seq<char>>(true)
    }

    /// Where injection stops; `deps.len()` when every dependency is active
    /// with an accepted version.
    pub open spec fn injection_stop(&self, deps: Seq<Dependency>) -> int {
        first_index(deps.len() as int, |k: int| self.injection_stops(deps, k), 0)
    }

    /// Adds an extension and activates it at once: every dependency,
    /// required or optional, must already be active, with a version its
    /// requirement accepts.
    ///
    /// A locked repository refuses it, and an extension already added or
    /// naming a dependency twice is answered as `add` answers it. Otherwise
    /// the dependencies are gone through in order, and the first one that is
    /// not active is refused with `MissingDependency` (the dependent, its
    /// version, the dependency and its requirement), the first whose version
    /// cannot be checked with semver's message, and the first whose version
    /// is not accepted with `VersionMismatch`; in all these cases nothing is
    /// stored. Otherwise the extension is stored, with every dependency
    /// found and none awaited, and named for activation.
    pub fn inject(&mut self, extension: Extension) -> (r: Result<Activation, RepositoryError>)
        requires
            old(self).wf(),
            old(self).idle() || old(self).spec_locked() || old(self).versions().contains_key(
                extension.name@,
            ),
        ensures
            final(self).wf(),
            repository_step(*old(self), *final(self), Some(extension)),
            final(self).spec_locked() == old(self).spec_locked(),
            final(self).activated() == old(self).activated(),
            final(self).due() == old(self).due(),
            forall|n: Seq<char>| #[trigger] old(self).versions().contains_key(n)
                ==> final(self).versions().contains_key(n) && final(self).versions()[n]
                == old(self).versions()[n],
            old(self).tracks_activation() ==> final(self).tracks_activation(),
            old(self).spec_locked() ==> (r matches Err(
                RepositoryError::Installation(ExtensionInstallationError::Locked),
            ) && *final(self) == *old(self)),
            !old(self).spec_locked() && old(self).versions().contains_key(extension.name@) ==> (
                *final(self) == *old(self) && if old(self).versions()[extension.name@] == extension.version@ {
                    r matches Ok(Activation::Idle)
                } else {
                    r matches Err(
                        RepositoryError::Installation(
                            ExtensionInstallationError::ExtensionAlreadyAdded(n, added, adding),
                        ),
                    ) && n@ == extension.name@ && added@ == old(self).versions()[extension.name@]
                        && adding@ == extension.version@
                }),
            !old(self).spec_locked() && !old(self).versions().contains_key(extension.name@)
                && first_repeat(extension.dependencies@) < extension.dependencies@.len() ==> (r matches Err(
                RepositoryError::Installation(ExtensionInstallationError::DuplicateDependency(n, v, d)),
            ) && n@ == extension.name@ && v@ == extension.version@ && d@
                == extension.dependencies@[first_repeat(extension.dependencies@)].spec_name()
                && *final(self) == *old(self)),
            !old(self).spec_locked() && !old(self).versions().contains_key(extension.name@)
                && first_repeat(extension.dependencies@) == extension.dependencies@.len() ==> ({
                let deps = extension.dependencies@;
                let stop = old(self).injection_stop(deps);
                &&& stop < deps.len() ==> {
                    let d = deps[stop];
                    &&& *final(self) == *old(self)
                    &&& !old(self).is_active(d) ==> (r matches Err(
                        RepositoryError::Installation(
                            ExtensionInstallationError::MissingDependency(n, v, dn, dv),
                        ),
                    ) && n@ == extension.name@ && v@ == extension.version@ && dn@ == d.spec_name()
                        && dv@ == d.spec_matcher())
                    &&& old(self).is_active(d) ==> match old(self).found_check(d) {
                        Err(message) => r matches Err(RepositoryError::Version(m)) && m@ == message,
                        Ok(_) => r matches Err(
                            RepositoryError::Installation(
                                ExtensionInstallationError::VersionMismatch(n, v, dn, dv, dm),
                            ),
                        ) && n@ == extension.name@ && v@ == extension.version@ && dn@ == d.spec_name()
                            && dv@ == old(self).versions()[d.spec_name()] && dm@ == d.spec_matcher(),
                    }
                }
                &&& stop == deps.len() ==> {
                    &&& final(self).manifests() == old(self).manifests().insert(extension.name@, extension)
                    &&& final(self).expected() == old(self).expected().insert(
                        extension.name@,
                        Map::<Seq<char>, (Seq<char>, bool)>::empty(),
                    )
                    &&& final(self).resolved() == old(self).resolved().insert(
                        extension.name@,
                        dependency_names(deps),
                    )
                    &&& final(self).dependents() == old(self).dependents()
                    &&& final(self).mismatches() == old(self).mismatches()
                    &&& r matches Ok(Activation::Activate(n)) && n@ == extension.name@
                    &&& final(self).activating() == Some(extension.name@)
                }
            }),
    {
        if self.locked {
            return Err(RepositoryError::Installation(ExtensionInstallationError::Locked));
        }
        match self.get_extension_version_for(&extension.name) {
            Some(_) => return self.add(extension),
            None => {},
        }
        let repeat = find_repeat(&extension.dependencies);
        if repeat < extension.dependencies.len() {
            return self.add(extension);
        }
        let ghost s0 = *self;
        let ghost deps = extension.dependencies@;
        proof {
            lemma_first_index(deps.len() as int, |k: int| repeats_earlier(deps, k), 0);
        }
        let n = extension.dependencies.len();
        let mut k: usize = 0;
        while k < n
            invariant
                n == deps.len(),
                deps == extension.dependencies@,
                k <= n,
                *self == s0,
                s0 == *old(self),
                s0.wf(),
                !s0.locked,
                !s0.versions().contains_key(extension.name@),
                first_repeat(deps) == deps.len(),
                forall|j: int| 0 <= j < k ==> !#[trigger] s0.injection_stops(deps, j),
            decreases n - k,
        {
            let dep = &extension.dependencies[k];
            let ghost stops = |i: int| s0.injection_stops(deps, i);
            if !contains_name(&self.activated_extensions, dep.name()) {
                proof {
                    assert(stops(k as int));
                    lemma_first_index_at(n as int, stops, k as int);
                }
                return Err(
                    RepositoryError::Installation(
                        ExtensionInstallationError::MissingDependency(
                            extension.name.clone(),
                            extension.version.clone(),
                            dep.name().clone(),
                            dep.version_matcher().clone(),
                        ),
                    ),
                );
            }
            match self.match_dependency(dep.name(), dep.version_matcher()) {
                Ok(None) => {},
                Ok(Some(received)) => {
                    proof {
                        assert(stops(k as int));
                        lemma_first_index_at(n as int, stops, k as int);
                    }
                    return Err(
                        RepositoryError::Installation(
                            ExtensionInstallationError::VersionMismatch(
                                extension.name.clone(),
                                extension.version.clone(),
                                dep.name().clone(),
                                received,
                                dep.version_matcher().clone(),
                            ),
                        ),
                    );
                },
                Err(e) => {
                    proof {
                        lemma_active_is_added(s0, deps[k as int].spec_name());
                        assert(stops(k as int));
                        lemma_first_index_at(n as int, stops, k as int);
                    }
                    return Err(e);
                },
            }
            proof {
                lemma_active_is_added(s0, deps[k as int].spec_name());
            }
            k = k + 1;
        }
        proof {
            let stops = |i: int| s0.injection_stops(deps, i);
            lemma_first_index_at(n as int, stops, n as int);
            let rs = |i: int| s0.resolution_stops(deps, i);
            lemma_first_index(n as int, |i: int| repeats_earlier(deps, i), 0);
            assert forall|i: int| 0 <= i < n implies !#[trigger] rs(i) by {
                assert(!stops(i));
                let rep = |j: int| repeats_earlier(deps, j);
                assert(!rep(i));
            }
            lemma_first_index_at(n as int, rs, n as int);
            lemma_filter_all(deps, s0.awaits());
            lemma_filter_all(deps, s0.accepts());
            lemma_filter_all(deps, s0.rejects_required());
            assert forall|i: int| 0 <= i < n implies !#[trigger] (s0.awaits())(deps[i]) by {
                assert(!stops(i));
            }
            assert forall|i: int| 0 <= i < n implies #[trigger] (s0.accepts())(deps[i]) by {
                assert(!stops(i));
            }
            assert forall|i: int| 0 <= i < n implies !#[trigger] (s0.rejects_required())(deps[i]) by {
                assert(!stops(i));
            }
            assert(s0.awaited_names(deps) =~= Seq::<Seq<char>>::empty());
            assert(s0.resolution_mismatches(extension, deps) =~= Seq::empty());
            assert(s0.awaited_map(deps) =~= Map::<Seq<char>, (Seq<char>, bool)>::empty());
            assert(s0.dependents_awaiting(extension.name@, Seq::<Seq<char>>::empty()) =~= s0.dependents());
            assert(s0.accepted_names(deps) == dependency_names(deps));
            assert(s0.injection_stop(deps) == deps.len());
            assert(s0.resolution_stop(deps) == deps.len());
            assert(deps.take(deps.len() as int) =~= deps);
        }
        let ghost e = extension;
        let r = self.add(extension);
        proof {
            assert(self.manifests() == s0.manifests().insert(e.name@, e));
            assert(self.expected() == s0.expected().insert(e.name@, Map::<Seq<char>, (Seq<char>, bool)>::empty()));
            assert(self.resolved() == s0.resolved().insert(e.name@, dependency_names(deps)));
            assert(self.dependents() == s0.dependents());
            assert(self.mismatches() == s0.mismatches());
        }
        r
    }
}

/// Every activated extension was added, is activated once, and was
/// activated after every extension it depends on, whatever the kind of the
/// dependency.
pub proof fn law_activation_follows_dependencies(repository: &ExtensionRepository)
    requires
        repository.wf(),
    ensures
        repository.activated().no_duplicates(),
        forall|i: int| 0 <= i < repository.activated().len()
            ==> #[trigger] repository.manifests().contains_key(repository.activated()[i]),
        forall|i: int, k: int|
            #![trigger repository.dependencies_of(repository.activated()[i])[k]]
            0 <= i < repository.activated().len() && 0 <= k < repository.dependencies_of(
                repository.activated()[i],
            ).len() ==> repository.activated().take(i).contains(
                repository.dependencies_of(repository.activated()[i])[k].spec_name(),
            ),
{
    assert forall|i: int| 0 <= i < repository.activated().len()
        implies #[trigger] repository.manifests().contains_key(repository.activated()[i]) by {
        assert(repository.expected().contains_key(repository.activated()[i]));
    }
}

/// Resolution records are kept for added extensions only: an extension
/// that waits for dependencies, or has found some, has been added, and the
/// two kinds of records exist together.
pub proof fn law_records_are_for_added_extensions(repository: &ExtensionRepository, d: Seq<char>)
    requires
        repository.wf(),
    ensures
        repository.expected().contains_key(d) ==> repository.manifests().contains_key(d),
        repository.expected().contains_key(d) == repository.resolved().contains_key(d),
{
}

/// Every dependency of a resolved extension is either still waited for or
/// active: an extension stops waiting for a dependency only once that
/// dependency has been activated.
pub proof fn law_resolved_dependencies_are_awaited_or_active(repository: &ExtensionRepository, d: Seq<char>, k: int)
    requires
        repository.wf(),
        repository.expected().contains_key(d),
        0 <= k < repository.dependencies_of(d).len(),
    ensures
        repository.expected()[d].contains_key(repository.dependencies_of(d)[k].spec_name())
            || repository.activated().contains(repository.dependencies_of(d)[k].spec_name()),
{
    assert(repository.expected()[d] == repository.expected()[d]);
}

/// Storing a manifest makes its version the one read back for its name,
/// and leaves the versions of the other extensions as they were.
pub proof fn law_version_read_back(before: &ExtensionRepository, after: &ExtensionRepository, extension: Extension)
    requires
        after.manifests() == before.manifests().insert(extension.name@, extension),
    ensures
        after.versions().contains_key(extension.name@),
        after.versions()[extension.name@] == extension.version@,
        forall|n: Seq<char>| n != extension.name@ ==> (#[trigger] after.versions().contains_key(n)
            == before.versions().contains_key(n)),
        forall|n: Seq<char>| n != extension.name@ && before.versions().contains_key(n)
            ==> #[trigger] after.versions()[n] == before.versions()[n],
{
}

} // verus!
verus! {

/// Each call of a sequence keeps `repository_step`: `states[k + 1]` is what
/// the call given `inputs[k]` left of `states[k]`.
pub open spec fn steps(states: Seq<ExtensionRepository>, inputs: Seq<Option<Extension>>) -> bool {
    &&& states.len() == inputs.len() + 1
    &&& forall|k: int| 0 <= k < inputs.len() ==> #[trigger] repository_step(states[k], states[k + 1], inputs[k])
}

/// The call `k` of a sequence stored the version of `n`.
pub open spec fn stored_at(states: Seq<ExtensionRepository>, inputs: Seq<Option<Extension>>, k: int, n: Seq<char>) -> bool {
    &&& inputs[k] matches Some(e) && e.name@ == n
    &&& !states[k].versions().contains_key(n)
    &&& states[k + 1].versions().contains_key(n)
}

/// Once locked, a repository stays locked through any later calls, and
/// every later addition leaves it as it is.
pub proof fn law_lock_persists(states: Seq<ExtensionRepository>, inputs: Seq<Option<Extension>>, i: int)
    requires
        steps(states, inputs),
        0 <= i < states.len(),
        states[i].spec_locked(),
    ensures
        forall|j: int| i <= j < states.len() ==> #[trigger] states[j].spec_locked(),
        forall|k: int| i <= k < inputs.len() && inputs[k] is Some ==> #[trigger] states[k + 1] == states[k],
{
    assert forall|j: int| i <= j < states.len() implies #[trigger] states[j].spec_locked() by {
        lemma_locked_from(states, inputs, i, j);
    }
    assert forall|k: int| i <= k < inputs.len() && inputs[k] is Some implies #[trigger] states[k + 1]
        == states[k] by {
        lemma_locked_from(states, inputs, i, k);
        assert(repository_step(states[k], states[k + 1], inputs[k]));
    }
}

proof fn lemma_locked_from(states: Seq<ExtensionRepository>, inputs: Seq<Option<Extension>>, i: int, j: int)
    requires
        steps(states, inputs),
        0 <= i <= j < states.len(),
        states[i].spec_locked(),
    ensures
        states[j].spec_locked(),
    decreases j - i,
{
    if j > i {
        lemma_locked_from(states, inputs, i, j - 1);
        let k = j - 1;
        assert(repository_step(states[k], states[k + 1], inputs[k]));
        assert(states[k + 1] == states[j]);
    }
}

/// From a repository with no extension, the version read back for a name
/// after any sequence of calls is the version of the extension of that
/// name that a call stored, which happens at most once: later additions of
/// the name keep the first stored version. A name no call stored reads
/// back nothing.
pub proof fn law_first_stored_version(states: Seq<ExtensionRepository>, inputs: Seq<Option<Extension>>, n: Seq<char>)
    requires
        steps(states, inputs),
        states[0].versions() == Map::<Seq<char>, Seq<char>>::empty(),
    ensures
        states.last().versions().contains_key(n) <==> exists|k: int|
            0 <= k < inputs.len() && #[trigger] stored_at(states, inputs, k, n),
        forall|k: int| 0 <= k < inputs.len() && #[trigger] stored_at(states, inputs, k, n)
            ==> states.last().versions()[n] == inputs[k]->Some_0.version@,
        forall|k1: int, k2: int|
            0 <= k1 < inputs.len() && 0 <= k2 < inputs.len() && #[trigger] stored_at(states, inputs, k1, n)
                && #[trigger] stored_at(states, inputs, k2, n) ==> k1 == k2,
{
    lemma_first_stored_version(states, inputs, n, inputs.len() as int);
    assert forall|k1: int, k2: int|
        0 <= k1 < inputs.len() && 0 <= k2 < inputs.len() && #[trigger] stored_at(states, inputs, k1, n)
            && #[trigger] stored_at(states, inputs, k2, n) implies k1 == k2 by {
        if k1 < k2 {
            lemma_stored_stays(states, inputs, n, k1 + 1, k2);
        } else if k2 < k1 {
            lemma_stored_stays(states, inputs, n, k2 + 1, k1);
        }
    }
}

proof fn lemma_stored_stays(states: Seq<ExtensionRepository>, inputs: Seq<Option<Extension>>, n: Seq<char>, i: int, j: int)
    requires
        steps(states, inputs),
        0 <= i <= j < states.len(),
        states[i].versions().contains_key(n),
    ensures
        states[j].versions().contains_key(n),
        states[j].versions()[n] == states[i].versions()[n],
    decreases j - i,
{
    if j > i {
        lemma_stored_stays(states, inputs, n, i, j - 1);
        let k = j - 1;
        assert(repository_step(states[k], states[k + 1], inputs[k]));
        assert(states[k + 1] == states[j]);
    }
}

proof fn lemma_first_stored_version(states: Seq<ExtensionRepository>, inputs: Seq<Option<Extension>>, n: Seq<char>, j: int)
    requires
        steps(states, inputs),
        states[0].versions() == Map::<Seq<char>, Seq<char>>::empty(),
        0 <= j <= inputs.len(),
    ensures
        states[j].versions().contains_key(n) <==> exists|k: int| 0 <= k < j && #[trigger] stored_at(states, inputs, k, n),
        forall|k: int| 0 <= k < j && #[trigger] stored_at(states, inputs, k, n)
            ==> states[j].versions()[n] == inputs[k]->Some_0.version@,
    decreases j,
{
    if j > 0 {
        lemma_first_stored_version(states, inputs, n, j - 1);
        let k = j - 1;
        assert(repository_step(states[k], states[k + 1], inputs[k]));
        assert(states[k + 1] == states[j]);
        if states[k].versions().contains_key(n) {
            assert(!stored_at(states, inputs, k, n));
            assert forall|i: int| 0 <= i < j && #[trigger] stored_at(states, inputs, i, n)
                implies states[j].versions()[n] == inputs[i]->Some_0.version@ by {
                assert(i < k);
            }
        } else {
            if states[j].versions().contains_key(n) {
                assert(stored_at(states, inputs, k, n));
            }
            assert forall|i: int| 0 <= i < j && #[trigger] stored_at(states, inputs, i, n)
                implies states[j].versions()[n] == inputs[i]->Some_0.version@ by {
                if i < k {
                    assert(states[k].versions().contains_key(n));
                }
            }
        }
    }
}

} // verus!
verus! {

/// What the repository keeps track of for activation, over its model:
/// every added extension has been resolved; whatever a resolved extension
/// waits for is one of its dependencies, with that dependency's
/// requirement, is not active, and has the extension among its waiters;
/// and a resolved extension that waits for nothing is active, or being or
/// due to be activated.
pub open spec fn tracking_invariant(
    manifests: Map<Seq<char>, Extension>,
    activated: Seq<Seq<char>>,
    expected: Map<Seq<char>, Map<Seq<char>, (Seq<char>, bool)>>,
    dependents: Map<Seq<char>, Seq<Seq<char>>>,
    pending: Seq<Seq<char>>,
) -> bool {
    &&& forall|n: Seq<char>| #[trigger] manifests.contains_key(n) ==> expected.contains_key(n)
    &&& forall|d: Seq<char>, x: Seq<char>|
        #![trigger expected[d].contains_key(x)]
        expected.contains_key(d) && expected[d].contains_key(x) ==> {
            &&& exists|k: int|
                #![trigger manifests[d].dependencies@[k]]
                0 <= k < manifests[d].dependencies@.len() && manifests[d].dependencies@[k].spec_name() == x
                    && manifests[d].dependencies@[k].spec_matcher() == expected[d][x].0
            &&& !activated.contains(x)
            &&& dependents.contains_key(x)
            &&& dependents[x].contains(d)
        }
    &&& forall|d: Seq<char>|
        #[trigger] expected.contains_key(d) && expected[d] == Map::<Seq<char>, (Seq<char>, bool)>::empty()
            ==> activated.contains(d) || pending.contains(d)
}

impl ExtensionRepository {
    /// Whether every added extension accepts the version of each of its
    /// dependencies that has been added.
    pub open spec fn versions_accepted(&self) -> bool {
        forall|n: Seq<char>, k: int|
            #![trigger self.dependencies_of(n)[k]]
            self.manifests().contains_key(n) && 0 <= k < self.dependencies_of(n).len()
                && self.manifests().contains_key(self.dependencies_of(n)[k].spec_name())
                ==> version_check(
                self.dependencies_of(n)[k].spec_matcher(),
                self.versions()[self.dependencies_of(n)[k].spec_name()],
            ) == Ok::<bool, Seq<char>>(true)
    }

    /// Whether the repository keeps track of activation, as
    /// `tracking_invariant` says, as long as every added extension accepts
    /// the versions of its added dependencies. A new repository does, and
    /// `lock`, `add`, `inject` and `activation_succeeded` keep it; a failed
    /// activation may not.
    pub open spec fn tracks_activation(&self) -> bool {
        self.versions_accepted() ==> tracking_invariant(
            self.manifests(),
            self.activated(),
            self.expected(),
            self.dependents(),
            self.pending(),
        )
    }
}

/// Two repositories with the same manifests agree on whether the versions
/// are accepted.
proof fn lemma_accepted_same_manifests(a: ExtensionRepository, b: ExtensionRepository)
    requires
        a.manifests() == b.manifests(),
    ensures
        a.versions_accepted() == b.versions_accepted(),
{
    assert(a.versions() =~= b.versions());
    if a.versions_accepted() {
        lemma_accepted_carries(a, b);
    }
    if b.versions_accepted() {
        lemma_accepted_carries(b, a);
    }
}

proof fn lemma_accepted_carries(a: ExtensionRepository, b: ExtensionRepository)
    requires
        a.manifests() == b.manifests(),
        a.versions_accepted(),
    ensures
        b.versions_accepted(),
{
    assert(a.versions() =~= b.versions());
    assert forall|n: Seq<char>, k: int|
        b.manifests().contains_key(n) && 0 <= k < b.dependencies_of(n).len()
            && b.manifests().contains_key(#[trigger] b.dependencies_of(n)[k].spec_name())
        implies version_check(
        b.dependencies_of(n)[k].spec_matcher(),
        b.versions()[b.dependencies_of(n)[k].spec_name()],
    ) == Ok::<bool, Seq<char>>(true) by {
        assert(a.dependencies_of(n)[k] == b.dependencies_of(n)[k]);
    }
}

/// Storing a manifest only adds version checks: when they all pass after,
/// they passed before.
proof fn lemma_accepted_before_insert(s0: ExtensionRepository, s1: ExtensionRepository, e: Extension)
    requires
        s1.manifests() == s0.manifests().insert(e.name@, e),
        !s0.manifests().contains_key(e.name@),
        s1.versions_accepted(),
    ensures
        s0.versions_accepted(),
{
    assert forall|n: Seq<char>, k: int|
        s0.manifests().contains_key(n) && 0 <= k < s0.dependencies_of(n).len()
            && s0.manifests().contains_key(#[trigger] s0.dependencies_of(n)[k].spec_name())
        implies version_check(
        s0.dependencies_of(n)[k].spec_matcher(),
        s0.versions()[s0.dependencies_of(n)[k].spec_name()],
    ) == Ok::<bool, Seq<char>>(true) by {
        let m = s0.dependencies_of(n)[k].spec_name();
        assert(s1.dependencies_of(n) == s0.dependencies_of(n));
        assert(s1.dependencies_of(n)[k] == s0.dependencies_of(n)[k]);
        assert(s1.versions()[m] == s0.versions()[m]);
    }
}

/// A successful addition keeps track of activation.
proof fn lemma_add_keeps_tracking(s0: ExtensionRepository, s1: ExtensionRepository, e: Extension)
    requires
        s0.wf(),
        s1.wf(),
        s0.idle(),
        s0.tracks_activation(),
        !s0.versions().contains_key(e.name@),
        first_repeat(e.dependencies@) == e.dependencies@.len(),
        s1.activated() == s0.activated(),
        s1.due() == s0.due(),
        s1.manifests() == s0.manifests().insert(e.name@, e),
        ({
            let deps = e.dependencies@;
            let stop = s0.resolution_stop(deps);
            &&& stop < deps.len() ==> s0.found_check(deps[stop]) is Err
            &&& stop == deps.len() ==> {
                &&& s1.expected() == s0.expected().insert(e.name@, s0.awaited_map(deps))
                &&& s1.dependents() == s0.dependents_awaiting(e.name@, s0.awaited_names(deps))
                &&& if s0.awaited_names(deps).len() == 0 && s0.resolution_mismatches(e, deps).len() == 0 {
                    s1.activating() == Some(e.name@)
                } else {
                    s1.idle()
                }
            }
        }),
    ensures
        s1.tracks_activation(),
{
    let deps = e.dependencies@;
    let stop = s0.resolution_stop(deps);
    let name = e.name@;
    if s1.versions_accepted() {
        lemma_accepted_before_insert(s0, s1, e);
        lemma_first_index(deps.len() as int, |k: int| s0.resolution_stops(deps, k), 0);
        lemma_first_index(deps.len() as int, |k: int| repeats_earlier(deps, k), 0);
        assert(s1.dependencies_of(name) == deps);
        if stop < deps.len() {
            let repeats = |k: int| repeats_earlier(deps, k);
            assert(!repeats(stop));
            assert(s0.resolution_stops(deps, stop));
            let m = deps[stop].spec_name();
            lemma_active_is_added(s0, m);
            assert(s1.versions()[m] == s0.versions()[m]);
            assert(s1.dependencies_of(name)[stop] == deps[stop]);
            assert(false);
        } else {
            assert(s0.pending() =~= Seq::<Seq<char>>::empty());
            let aw = s0.awaited_names(deps);
            let f = deps.filter(s0.awaits());
            assert(s0.resolution_mismatches(e, deps).len() == 0) by {
                let g = deps.filter(s0.rejects_required());
                if g.len() > 0 {
                    deps.lemma_filter_pred(s0.rejects_required(), 0);
                    assert(g.contains(g[0]));
                    deps.lemma_filter_contains_rev(s0.rejects_required(), g[0]);
                    let k = choose|k: int| 0 <= k < deps.len() && deps[k] == g[0];
                    let m = deps[k].spec_name();
                    lemma_active_is_added(s0, m);
                    assert(s1.versions()[m] == s0.versions()[m]);
                    assert(s1.dependencies_of(name)[k] == deps[k]);
                }
            }
            assert forall|n: Seq<char>| #[trigger] s1.manifests().contains_key(n) implies s1.expected().contains_key(n) by {
                if n != name {
                    assert(s0.manifests().contains_key(n));
                }
            }
            assert forall|d: Seq<char>, x: Seq<char>|
                s1.expected().contains_key(d) && #[trigger] s1.expected()[d].contains_key(x) implies {
                &&& exists|k: int|
                    #![trigger s1.manifests()[d].dependencies@[k]]
                    0 <= k < s1.manifests()[d].dependencies@.len()
                        && s1.manifests()[d].dependencies@[k].spec_name() == x
                        && s1.manifests()[d].dependencies@[k].spec_matcher() == s1.expected()[d][x].0
                &&& !s1.activated().contains(x)
                &&& s1.dependents().contains_key(x)
                &&& s1.dependents()[x].contains(d)
            } by {
                if d == name {
                    assert(s1.expected()[d] == s0.awaited_map(deps));
                    assert(aw.contains(x));
                    let j = choose|j: int| 0 <= j < aw.len() && aw[j] == x;
                    assert(f[j].spec_name() == x);
                    deps.lemma_filter_pred(s0.awaits(), j);
                    assert(f.contains(f[j]));
                    deps.lemma_filter_contains_rev(s0.awaits(), f[j]);
                    let k0 = choose|k: int| 0 <= k < deps.len() && deps[k] == f[j];
                    assert(deps[k0].spec_name() == x);
                    let kc = choose|k: int| 0 <= k < deps.len() && deps[k].spec_name() == x;
                    assert(s1.manifests()[d].dependencies@[kc].spec_name() == x);
                    let pre = if s0.dependents().contains_key(x) {
                        s0.dependents()[x]
                    } else {
                        Seq::<Seq<char>>::empty()
                    };
                    assert(s1.dependents()[x] == pre + seq![name]);
                    assert(s1.dependents()[x][pre.len() as int] == name);
                } else {
                    assert(s1.expected()[d] == s0.expected()[d]);
                    assert(s0.expected().contains_key(d));
                    assert(s0.expected()[d].contains_key(x));
                    let k = choose|k: int|
                        #![trigger s0.manifests()[d].dependencies@[k]]
                        0 <= k < s0.manifests()[d].dependencies@.len()
                            && s0.manifests()[d].dependencies@[k].spec_name() == x
                            && s0.manifests()[d].dependencies@[k].spec_matcher() == s0.expected()[d][x].0;
                    assert(s1.manifests()[d] == s0.manifests()[d]);
                    assert(s1.manifests()[d].dependencies@[k].spec_name() == x);
                    let i = choose|i: int| 0 <= i < s0.dependents()[x].len() && s0.dependents()[x][i] == d;
                    if aw.contains(x) {
                        assert(s1.dependents()[x] == s0.dependents()[x] + seq![name]);
                    } else {
                        assert(s1.dependents()[x] == s0.dependents()[x]);
                    }
                    assert(s1.dependents()[x][i] == d);
                }
            }
            assert forall|d: Seq<char>|
                #[trigger] s1.expected().contains_key(d) && s1.expected()[d] == Map::<Seq<char>, (Seq<char>, bool)>::empty()
                implies s1.activated().contains(d) || s1.pending().contains(d) by {
                if d == name {
                    if aw.len() > 0 {
                        assert(aw.contains(aw[0]));
                        assert(s0.awaited_map(deps).contains_key(aw[0]));
                    }
                    assert(s1.pending() == s1.due().push(name));
                    assert(s1.pending()[s1.pending().len() - 1] == name);
                } else {
                    assert(s1.expected()[d] == s0.expected()[d]);
                    assert(s0.expected().contains_key(d));
                }
            }
        }
    }
}

/// A successful activation keeps track of activation.
proof fn lemma_success_keeps_tracking(s: ExtensionRepository, s1: ExtensionRepository)
    requires
        s.wf(),
        s1.wf(),
        s.activating() is Some,
        s.tracks_activation(),
        s1.manifests() == s.manifests(),
        ({
            let x = s.activating()->0;
            let waiters = s.waiters(x);
            let stop = s.completion_stop(x);
            &&& s1.activated() == s.activated().push(x)
            &&& s1.dependents() == s.dependents().remove(x)
            &&& stop < waiters.len() ==> s.waiter_check(x, waiters[stop]) is Err
            &&& stop == waiters.len() ==> {
                let due = s.due() + s.completed_by(x).reverse();
                &&& s1.expected() == s.expected_after(x, stop)
                &&& if due.len() == 0 {
                    s1.idle()
                } else {
                    &&& s1.activating() == Some(due.last())
                    &&& s1.due() == due.drop_last()
                }
            }
        }),
    ensures
        s1.tracks_activation(),
{
    if s1.versions_accepted() {
        lemma_accepted_same_manifests(s, s1);
        let x = s.activating()->0;
        let w = s.waiters(x);
        let stop = s.completion_stop(x);
        lemma_pending_facts(s);
        lemma_first_index(w.len() as int, s.waiter_fails(x), 0);
        assert(s.versions() =~= s1.versions());
        if stop < w.len() {
            let d = w[stop];
            assert(s.dependents().contains_key(x));
            assert(s.dependents()[x][stop] == d);
            assert(s.expected().contains_key(d) && s.expected()[d].contains_key(x));
            let k = choose|k: int|
                #![trigger s.manifests()[d].dependencies@[k]]
                0 <= k < s.manifests()[d].dependencies@.len()
                    && s.manifests()[d].dependencies@[k].spec_name() == x
                    && s.manifests()[d].dependencies@[k].spec_matcher() == s.expected()[d][x].0;
            assert(s.dependencies_of(d)[k].spec_name() == x);
            assert(false);
        } else {
            let due = s.due() + s.completed_by(x).reverse();
            assert(w.take(w.len() as int) =~= w);
            assert forall|y: Seq<char>| due.contains(y) implies #[trigger] s1.pending().contains(y) by {
                assert(due.drop_last().push(due.last()) =~= due);
            }
            assert forall|n: Seq<char>| #[trigger] s1.manifests().contains_key(n) implies s1.expected().contains_key(n) by {
                assert(s.manifests().contains_key(n));
            }
            assert forall|d: Seq<char>, y: Seq<char>|
                s1.expected().contains_key(d) && #[trigger] s1.expected()[d].contains_key(y) implies {
                &&& exists|k: int|
                    #![trigger s1.manifests()[d].dependencies@[k]]
                    0 <= k < s1.manifests()[d].dependencies@.len()
                        && s1.manifests()[d].dependencies@[k].spec_name() == y
                        && s1.manifests()[d].dependencies@[k].spec_matcher() == s1.expected()[d][y].0
                &&& !s1.activated().contains(y)
                &&& s1.dependents().contains_key(y)
                &&& s1.dependents()[y].contains(d)
            } by {
                assert(s.expected().contains_key(d));
                if w.take(w.len() as int).contains(d) {
                    assert(s1.expected()[d] == s.expected()[d].remove(x));
                } else {
                    assert(s1.expected()[d] == s.expected()[d]);
                    if y == x {
                        assert(s.dependents()[x].contains(d));
                    }
                }
                assert(y != x);
                assert(s.expected()[d].contains_key(y));
                assert(s1.expected()[d][y] == s.expected()[d][y]);
                let k = choose|k: int|
                    #![trigger s.manifests()[d].dependencies@[k]]
                    0 <= k < s.manifests()[d].dependencies@.len()
                        && s.manifests()[d].dependencies@[k].spec_name() == y
                        && s.manifests()[d].dependencies@[k].spec_matcher() == s.expected()[d][y].0;
                assert(s1.manifests()[d].dependencies@[k].spec_name() == y);
                if s1.activated().contains(y) {
                    let i = choose|i: int| 0 <= i < s1.activated().len() && s1.activated()[i] == y;
                    if i < s.activated().len() {
                        assert(s.activated()[i] == y);
                    }
                }
                assert(s1.dependents()[y] == s.dependents()[y]);
            }
            assert forall|d: Seq<char>|
                #[trigger] s1.expected().contains_key(d) && s1.expected()[d] == Map::<Seq<char>, (Seq<char>, bool)>::empty()
                implies s1.activated().contains(d) || s1.pending().contains(d) by {
                assert(s.expected().contains_key(d));
                if w.take(w.len() as int).contains(d) {
                    let j = choose|j: int| 0 <= j < w.len() && w[j] == d;
                    assert(s.dependents()[x][j] == d);
                    assert(s.expected()[d].contains_key(x));
                    assert(s1.expected()[d] == s.expected()[d].remove(x));
                    assert(s.expected()[d].dom() =~= set![x]) by {
                        assert forall|z: Seq<char>| s.expected()[d].contains_key(z) implies z == x by {
                            if z != x {
                                assert(s.expected()[d].remove(x).contains_key(z));
                            }
                        }
                    }
                    let k = choose|k: int|
                        #![trigger s.manifests()[d].dependencies@[k]]
                        0 <= k < s.manifests()[d].dependencies@.len()
                            && s.manifests()[d].dependencies@[k].spec_name() == x
                            && s.manifests()[d].dependencies@[k].spec_matcher() == s.expected()[d][x].0;
                    assert(s.dependencies_of(d)[k].spec_name() == x);
                    assert(s.waiter_completes(x)(w[j]));
                    w.lemma_filter_contains(s.waiter_completes(x), j);
                    let c = s.completed_by(x);
                    assert(c.contains(d));
                    let i = choose|i: int| 0 <= i < c.len() && c[i] == d;
                    assert(c.reverse()[c.len() - 1 - i] == d);
                    assert(due[s.due().len() + c.len() - 1 - i] == d);
                    assert(due.contains(d));
                } else {
                    assert(s1.expected()[d] == s.expected()[d]);
                    if s.activated().contains(d) {
                        let i = choose|i: int| 0 <= i < s.activated().len() && s.activated()[i] == d;
                        assert(s1.activated()[i] == d);
                    } else if d == x {
                        assert(s1.activated()[s.activated().len() as int] == x);
                    } else {
                        assert(s.pending() == s.due().push(x));
                        assert(s.pending().contains(d));
                        let i = choose|i: int| 0 <= i < s.pending().len() && s.pending()[i] == d;
                        assert(i < s.due().len());
                        assert(due[i] == d);
                        assert(due.contains(d));
                    }
                }
            }
        }
    }
}

/// At rest, an added extension whose dependencies are all active is active
/// too.
proof fn lemma_closed_at_rest(s: ExtensionRepository, n: Seq<char>)
    requires
        s.wf(),
        s.tracks_activation(),
        s.versions_accepted(),
        s.idle(),
        s.manifests().contains_key(n),
        forall|k: int|
            0 <= k < s.dependencies_of(n).len() ==> s.activated().contains(
                #[trigger] s.dependencies_of(n)[k].spec_name(),
            ),
    ensures
        s.activated().contains(n),
{
    assert(s.expected().contains_key(n));
    assert(s.expected()[n] =~= Map::<Seq<char>, (Seq<char>, bool)>::empty()) by {
        assert forall|y: Seq<char>| !s.expected()[n].contains_key(y) by {
            if s.expected()[n].contains_key(y) {
                let k = choose|k: int|
                    #![trigger s.manifests()[n].dependencies@[k]]
                    0 <= k < s.manifests()[n].dependencies@.len()
                        && s.manifests()[n].dependencies@[k].spec_name() == y
                        && s.manifests()[n].dependencies@[k].spec_matcher() == s.expected()[n][y].0;
                assert(s.dependencies_of(n)[k].spec_name() == y);
            }
        }
    }
    assert(s.pending() =~= Seq::<Seq<char>>::empty());
}

/// At rest, in a repository that keeps track of activation (one that
/// started new and has since been locked, added to and told of successful
/// activations only), with every added extension accepting the versions of
/// its added dependencies: an extension is active exactly when it has been
/// added and every extension it depends on, required or optional, is
/// active.
pub proof fn law_activation_at_rest(repository: &ExtensionRepository, n: Seq<char>)
    requires
        repository.wf(),
        repository.tracks_activation(),
        repository.versions_accepted(),
        repository.idle(),
    ensures
        repository.activated().contains(n) <==> (repository.manifests().contains_key(n) && forall|k: int|
            0 <= k < repository.dependencies_of(n).len() ==> repository.activated().contains(
                #[trigger] repository.dependencies_of(n)[k].spec_name(),
            )),
{
    if repository.activated().contains(n) {
        law_activation_follows_dependencies(repository);
        let i = choose|i: int| 0 <= i < repository.activated().len() && repository.activated()[i] == n;
        assert(repository.manifests().contains_key(repository.activated()[i]));
        assert forall|k: int| 0 <= k < repository.dependencies_of(n).len() implies repository.activated().contains(
            #[trigger] repository.dependencies_of(n)[k].spec_name(),
        ) by {
            assert(repository.dependencies_of(repository.activated()[i])[k] == repository.dependencies_of(n)[k]);
            let t = repository.activated().take(i);
            assert(t.contains(repository.dependencies_of(n)[k].spec_name()));
            let j = choose|j: int| 0 <= j < t.len() && t[j] == repository.dependencies_of(n)[k].spec_name();
            assert(repository.activated()[j] == t[j]);
        }
    }
    if repository.manifests().contains_key(n) && forall|k: int|
        0 <= k < repository.dependencies_of(n).len() ==> repository.activated().contains(
            #[trigger] repository.dependencies_of(n)[k].spec_name(),
        ) {
        lemma_closed_at_rest(*repository, n);
    }
}

/// The extensions active at rest do not depend on the order in which the
/// extensions were added: two repositories at rest that keep track of
/// activation (each started new and has since been locked, added to and
/// told of successful activations only) and hold the same manifests, every
/// added extension accepting the versions of its added dependencies, have
/// the same active extensions.
pub proof fn law_activation_independent_of_order(a: &ExtensionRepository, b: &ExtensionRepository, n: Seq<char>)
    requires
        a.wf(),
        b.wf(),
        a.tracks_activation(),
        b.tracks_activation(),
        a.idle(),
        b.idle(),
        a.manifests() == b.manifests(),
        a.versions_accepted(),
    ensures
        a.activated().contains(n) <==> b.activated().contains(n),
{
    lemma_accepted_same_manifests(*a, *b);
    lemma_active_carries(*a, *b, a.activated().len() as int);
    lemma_active_carries(*b, *a, b.activated().len() as int);
    if a.activated().contains(n) {
        let i = choose|i: int| 0 <= i < a.activated().len() && a.activated()[i] == n;
    }
    if b.activated().contains(n) {
        let i = choose|i: int| 0 <= i < b.activated().len() && b.activated()[i] == n;
    }
}

/// The first `i` extensions activated in `a` are active in `b`.
proof fn lemma_active_carries(a: ExtensionRepository, b: ExtensionRepository, i: int)
    requires
        a.wf(),
        b.wf(),
        b.tracks_activation(),
        b.idle(),
        a.manifests() == b.manifests(),
        b.versions_accepted(),
        0 <= i <= a.activated().len(),
    ensures
        forall|j: int| 0 <= j < i ==> b.activated().contains(#[trigger] a.activated()[j]),
    decreases i,
{
    if i > 0 {
        lemma_active_carries(a, b, i - 1);
        law_activation_follows_dependencies(&a);
        let n = a.activated()[i - 1];
        assert(a.manifests().contains_key(a.activated()[i - 1]));
        assert forall|k: int| 0 <= k < b.dependencies_of(n).len() implies b.activated().contains(
            #[trigger] b.dependencies_of(n)[k].spec_name(),
        ) by {
            assert(a.dependencies_of(a.activated()[i - 1])[k] == b.dependencies_of(n)[k]);
            let t = a.activated().take(i - 1);
            assert(t.contains(b.dependencies_of(n)[k].spec_name()));
            let j = choose|j: int| 0 <= j < t.len() && t[j] == b.dependencies_of(n)[k].spec_name();
            assert(a.activated()[j] == t[j]);
        }
        lemma_closed_at_rest(b, n);
    }
}

} // verus!
