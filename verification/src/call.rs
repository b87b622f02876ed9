//! Calls and mixins: how extensions name what they offer each other, and the
//! context an extension works through.
//!
//! A call or mixin is named by its owner and its own name; its id is
//! `owner/name`. The repository answers a few calls of its own, whose owner
//! is the empty name.

use vstd::prelude::*;
use core::marker::PhantomData;
use crate::errors::LockedError;

verus! {

/// The id of what `owner` offers under `name`.
pub open spec fn spec_id(owner: Seq<char>, name: Seq<char>) -> Seq<char> {
    owner + "/"@ + name
}

/// Joins an owner and a name into an id.
fn make_id(owner: &str, name: &str) -> (id: String)
    ensures
        id@ == spec_id(owner@, name@),
{
    let mut id = String::from_str(owner);
    id.append("/");
    id.append(name);
    id
}

/// A call that an extension offers: it takes an `Argument` and answers a
/// `Return`.
pub struct Call<Argument, Return> {
    pub name: String,
    pub owner: String,
    pub id: String,
    pub argument: PhantomData<Argument>,
    pub answer: PhantomData<Return>,
}

impl<Argument, Return> Call<Argument, Return> {
    /// The call `name` of the extension `owner`.
    pub fn new(name: &str, owner: &str) -> (c: Self)
        ensures
            c.name@ == name@,
            c.owner@ == owner@,
            c.id@ == spec_id(owner@, name@),
    {
        Call {
            name: String::from_str(name),
            owner: String::from_str(owner),
            id: make_id(owner, name),
            argument: PhantomData,
            answer: PhantomData,
        }
    }
}

/// A mixin that an extension offers: subscribers receive a `Payload`.
pub struct Mixin<Payload> {
    pub name: String,
    pub owner: String,
    pub id: String,
    pub payload: PhantomData<Payload>,
}

impl<Payload> Mixin<Payload> {
    /// The mixin `name` of the extension `owner`.
    pub fn new(name: &str, owner: &str) -> (m: Self)
        ensures
            m.name@ == name@,
            m.owner@ == owner@,
            m.id@ == spec_id(owner@, name@),
    {
        Mixin {
            name: String::from_str(name),
            owner: String::from_str(owner),
            id: make_id(owner, name),
            payload: PhantomData,
        }
    }
}

/// What a call's handler receives: the state of the extension that owns the
/// call, the name of the caller, and the argument.
pub struct CallContext<State, Argument> {
    pub state: State,
    pub caller: String,
    pub argument: Argument,
}

impl<State, Argument> CallContext<State, Argument> {
    pub fn new(state: State, caller: String, argument: Argument) -> (c: Self)
        ensures
            c.state == state,
            c.caller == caller,
            c.argument == argument,
    {
        CallContext { state, caller, argument }
    }
}

/// The argument of the repository's call that registers a handler: the id
/// of the call handled, and the handler.
pub struct AddCallArgs<Handler> {
    pub call: String,
    pub handler: Handler,
}

/// The argument of the repository's call that registers a mixin's
/// approver: the mixin, and the approver.
pub struct AddMixinArgs<MixinRef, Handler> {
    pub mixin: MixinRef,
    pub handler: Handler,
}

/// The repository's call that adds an extension.
pub fn add_extension_call<Manifest>() -> (c: Call<Manifest, ()>)
    ensures
        c.name@ == "ADD_EXTENSION"@,
        c.owner@ == ""@,
        c.id@ == spec_id(""@, "ADD_EXTENSION"@),
{
    Call::new("ADD_EXTENSION", "")
}

/// The repository's call that registers the handler of a call.
pub fn add_call_call<Handler>() -> (c: Call<AddCallArgs<Handler>, ()>)
    ensures
        c.name@ == "ADD_CALL"@,
        c.owner@ == ""@,
        c.id@ == spec_id(""@, "ADD_CALL"@),
{
    Call::new("ADD_CALL", "")
}

/// The repository's call that registers the approver of a mixin.
pub fn add_mixin_call<MixinRef, Handler>() -> (c: Call<AddMixinArgs<MixinRef, Handler>, ()>)
    ensures
        c.name@ == "ADD_MIXIN"@,
        c.owner@ == ""@,
        c.id@ == spec_id(""@, "ADD_MIXIN"@),
{
    Call::new("ADD_MIXIN", "")
}

/// The repository's mixin fired when a dependent of an extension has been
/// activated; its payload is the dependent's name.
pub fn dependent_activated_mixin() -> (m: Mixin<String>)
    ensures
        m.name@ == "DEPENDENT_ACTIVATED"@,
        m.owner@ == ""@,
        m.id@ == spec_id(""@, "DEPENDENT_ACTIVATED"@),
{
    Mixin::new("DEPENDENT_ACTIVATED", "")
}

/// The repository's mixin fired when it has been locked and extensions can
/// no longer be added.
pub fn repository_locked_mixin() -> (m: Mixin<()>)
    ensures
        m.name@ == "REPOSITORY_LOCKED"@,
        m.owner@ == ""@,
        m.id@ == spec_id(""@, "REPOSITORY_LOCKED"@),
{
    Mixin::new("REPOSITORY_LOCKED", "")
}

/// Where a call is sent: the extension whose state it runs with and whose
/// handler answers it, the call's id, and who calls.
pub struct CallRequest {
    pub owner: String,
    pub id: String,
    pub caller: String,
}

/// The context through which an extension makes and offers calls. Once
/// locked, it refuses registrations.
pub struct ExtensionContext<State, Repo> {
    extension_name: String,
    locked: bool,
    repository: Repo,
    state: State,
}

impl<State, Repo> ExtensionContext<State, Repo> {
    /// The name of the extension the context belongs to.
    pub closed spec fn spec_extension_name(&self) -> Seq<char> {
        self.extension_name@
    }

    /// Whether the context is locked.
    pub closed spec fn spec_locked(&self) -> bool {
        self.locked
    }

    /// The state of the extension.
    pub closed spec fn spec_state(&self) -> State {
        self.state
    }

    /// The repository the context sends its calls to.
    pub closed spec fn spec_repository(&self) -> Repo {
        self.repository
    }

    /// The state of the extension.
    pub fn state(&self) -> (s: &State)
        ensures
            *s == self.spec_state(),
    {
        &self.state
    }

    /// The repository the context sends its calls to.
    pub fn repository(&self) -> (r: &Repo)
        ensures
            *r == self.spec_repository(),
    {
        &self.repository
    }

    /// A new, unlocked context.
    pub fn new(state: State, extension_name: String, repository: Repo) -> (c: Self)
        ensures
            c.spec_extension_name() == extension_name@,
            !c.spec_locked(),
            c.spec_state() == state,
            c.spec_repository() == repository,
    {
        ExtensionContext { extension_name, locked: false, repository, state }
    }

    /// Locks the context.
    pub fn lock(&mut self)
        ensures
            final(self).spec_locked(),
            final(self).spec_extension_name() == old(self).spec_extension_name(),
            final(self).spec_state() == old(self).spec_state(),
            final(self).spec_repository() == old(self).spec_repository(),
    {
        self.locked = true;
    }

    pub fn is_locked(&self) -> (b: bool)
        ensures
            b == self.spec_locked(),
    {
        self.locked
    }

    /// Refuses with `LockedError` once the context is locked.
    pub fn assert_not_locked(&self) -> (r: Result<(), LockedError>)
        ensures
            r is Err <==> self.spec_locked(),
    {
        if self.is_locked() {
            Err(LockedError)
        } else {
            Ok(())
        }
    }

    /// Registering a mixin's approver: only a locked context answers, with
    /// `LockedError`; an unlocked one has no registration to make.
    pub fn add_mixin<Payload, Approver>(&self, mixin: &Mixin<Payload>, approver: &Approver) -> (r: Result<(), LockedError>)
        requires
            self.spec_locked(),
        ensures
            r is Err,
    {
        self.assert_not_locked()
    }

    /// Where a call of `call` goes: to the extension that owns it, under
    /// its id, from this context's extension.
    pub fn call<Argument, Return>(&self, call: &Call<Argument, Return>) -> (r: CallRequest)
        ensures
            r.owner@ == call.owner@,
            r.id@ == call.id@,
            r.caller@ == self.spec_extension_name(),
    {
        CallRequest {
            owner: call.owner.clone(),
            id: call.id.clone(),
            caller: self.extension_name.clone(),
        }
    }

    /// Offering a handler for `call`: a locked context refuses with
    /// `LockedError`; otherwise the registration is a call of the
    /// repository's `ADD_CALL` with the call's id and the handler.
    pub fn add_call<Argument, Return, Handler>(&self, call: &Call<Argument, Return>, handler: Handler) -> (r: Result<(CallRequest, AddCallArgs<Handler>), LockedError>)
        ensures
            self.spec_locked() ==> r is Err,
            !self.spec_locked() ==> (r matches Ok((request, args)) && request.owner@ == ""@
                && request.id@ == spec_id(""@, "ADD_CALL"@) && request.caller@
                == self.spec_extension_name() && args.call@ == call.id@ && args.handler == handler),
    {
        match self.assert_not_locked() {
            Err(e) => return Err(e),
            Ok(()) => {},
        }
        let registration: Call<AddCallArgs<Handler>, ()> = add_call_call();
        let request = self.call(&registration);
        Ok((request, AddCallArgs { call: call.id.clone(), handler }))
    }
}

} // verus!
