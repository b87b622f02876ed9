//! The manifest an extension publishes: its name, its version and the
//! extensions it depends on.

use vstd::prelude::*;

verus! {

/// A dependency on another extension, by name, with a semver requirement
/// on its version. A required dependency whose version does not satisfy
/// the requirement is recorded as a problem.
pub enum Dependency {
    Optional(String, String),
    Required(String, String),
}

impl Dependency {
    /// The name of the extension depended on.
    pub open spec fn spec_name(&self) -> Seq<char> {
        match self {
            Dependency::Optional(name, _) => name@,
            Dependency::Required(name, _) => name@,
        }
    }

    /// The version requirement.
    pub open spec fn spec_matcher(&self) -> Seq<char> {
        match self {
            Dependency::Optional(_, matcher) => matcher@,
            Dependency::Required(_, matcher) => matcher@,
        }
    }

    /// Whether the dependency is required.
    pub open spec fn spec_required(&self) -> bool {
        self is Required
    }

    /// The name of the extension depended on.
    pub fn name(&self) -> (name: &String)
        ensures
            name@ == self.spec_name(),
    {
        match self {
            Dependency::Optional(name, _) => name,
            Dependency::Required(name, _) => name,
        }
    }

    /// The version requirement.
    pub fn version_matcher(&self) -> (matcher: &String)
        ensures
            matcher@ == self.spec_matcher(),
    {
        match self {
            Dependency::Optional(_, matcher) => matcher,
            Dependency::Required(_, matcher) => matcher,
        }
    }

    /// A copy of the dependency.
    pub fn duplicate(&self) -> (d: Dependency)
        ensures
            d == *self,
    {
        match self {
            Dependency::Optional(name, matcher) => Dependency::Optional(name.clone(), matcher.clone()),
            Dependency::Required(name, matcher) => Dependency::Required(name.clone(), matcher.clone()),
        }
    }

    /// Whether the dependency is required.
    pub fn is_required(&self) -> (required: bool)
        ensures
            required == self.spec_required(),
    {
        match self {
            Dependency::Optional(_, _) => false,
            Dependency::Required(_, _) => true,
        }
    }
}

/// What the repository knows of an extension: its manifest. The code that
/// runs when the extension is activated stays with the host.
pub struct Extension {
    pub name: String,
    pub version: String,
    pub dependencies: Vec<Dependency>,
}

/// A copy of a list of dependencies.
pub fn duplicate_dependencies(deps: &Vec<Dependency>) -> (copy: Vec<Dependency>)
    ensures
        copy@ == deps@,
{
    let mut copy: Vec<Dependency> = Vec::new();
    let n = deps.len();
    let mut i: usize = 0;
    while i < n
        invariant
            n == deps@.len(),
            i <= n,
            copy@ == deps@.take(i as int),
        decreases n - i,
    {
        copy.push(deps[i].duplicate());
        proof {
            deps@.lemma_take_succ_push(i as int);
        }
        i = i + 1;
    }
    proof {
        deps@.lemma_take_len();
    }
    copy
}

} // verus!
