//! The operation interface of extensions: manifests whose initializer
//! registers operations, each named by its owner and its own name.

use vstd::prelude::*;
use core::marker::PhantomData;
use crate::call::spec_id;

verus! {

/// A dependency on another extension, by name, with a requirement on its
/// version.
pub enum Dependency {
    Required { name: String, version_matcher: String },
    Optional { name: String, version_matcher: String },
}

/// The manifest of an extension: its name, its version, the extensions it
/// depends on, and its initializer if it has one.
pub struct Extension<Init> {
    pub name: String,
    pub version: String,
    pub dependencies: Vec<Dependency>,
    pub init: Option<Init>,
}

/// An operation that an extension offers: it takes an `Input` and gives an
/// `Output`.
pub struct Operation<Input, Output> {
    pub name: String,
    pub owner: String,
    pub id: String,
    pub phantom: PhantomData<(Input, Output)>,
}

impl<Input, Output> Operation<Input, Output> {
    /// The operation `name` of the extension `owner`, whose id is
    /// `owner/name`.
    pub fn new(name: &str, owner: &str) -> (o: Self)
        ensures
            o.name@ == name@,
            o.owner@ == owner@,
            o.id@ == spec_id(owner@, name@),
    {
        let mut id = String::from_str(owner);
        id.append("/");
        id.append(name);
        Operation {
            name: String::from_str(name),
            owner: String::from_str(owner),
            id,
            phantom: PhantomData,
        }
    }
}

/// What an operation's handler receives: its input and who called it.
pub struct OpContext<Input> {
    pub input: Input,
    pub caller: String,
}

impl<Input> OpContext<Input> {
    pub fn new(input: Input, caller: String) -> (c: Self)
        ensures
            c.input == input,
            c.caller == caller,
    {
        OpContext { input, caller }
    }
}

/// The context an extension's initializer registers its operations with.
pub struct ExtensionContext {}

impl ExtensionContext {
    /// Registers `handler` for `operation`. Registration is always
    /// accepted.
    pub fn add_operation<Input, Output, Handler>(&self, operation: &Operation<Input, Output>, handler: &Handler) -> (r: Result<(), ()>)
        ensures
            r is Ok,
    {
        Ok(())
    }
}

} // verus!
