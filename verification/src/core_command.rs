//! The host's command line, built with clap.
//!
//! The library does not look inside a `clap::Command`; it knows of one only
//! its name and the names of its subcommands, in the order added, which is
//! what the two wrappers below say of it.

use vstd::prelude::*;
use clap::Command;
use crate::call::Call;

verus! {

#[verifier::external_type_specification]
#[verifier::external_body]
pub struct ExCommand(clap::Command);

/// The name a command was made with.
pub uninterp spec fn command_name(c: Command) -> Seq<char>;

/// The names of a command's subcommands, in the order they were added.
pub uninterp spec fn command_subcommands(c: Command) -> Seq<Seq<char>>;

/// Calls `clap::Command::new`. Trusted: the command has the given name and
/// no subcommand.
#[verifier::external_body]
fn new_command(name: &'static str) -> (c: Command)
    ensures
        command_name(c) == name@,
        command_subcommands(c) == Seq::<Seq<char>>::empty(),
{
    Command::new(name)
}

/// Calls `clap::Command::subcommand`. Trusted: the command keeps its name,
/// and the subcommand is added after the ones it had.
#[verifier::external_body]
fn add_subcommand(command: Command, sub: Command) -> (r: Command)
    ensures
        command_name(r) == command_name(command),
        command_subcommands(r) == command_subcommands(command).push(command_name(sub)),
{
    command.subcommand(sub)
}

/// The command line of the host, as extensions extend it.
pub struct Core {
    command: Command,
}

impl Core {
    /// The command being built.
    pub closed spec fn spec_command(&self) -> Command {
        self.command
    }

    pub fn new(command: Command) -> (c: Self)
        ensures
            c.spec_command() == command,
    {
        Core { command }
    }

    /// Adds the subcommand `hello`.
    pub fn add_command(self) -> (c: Self)
        ensures
            command_name(c.spec_command()) == command_name(self.spec_command()),
            command_subcommands(c.spec_command()) == command_subcommands(self.spec_command()).push(
                "hello"@,
            ),
    {
        let hello = new_command("hello");
        Core { command: add_subcommand(self.command, hello) }
    }

    /// The command built.
    pub fn finish(self) -> (c: Command)
        ensures
            c == self.spec_command(),
    {
        self.command
    }
}

/// The argument of the core's call that adds a command: the command's
/// argument, and its handler.
pub struct AddCommand<Arg, Handler>(pub Arg, pub Handler);

/// The argument of the core's call that hands the core to a function that
/// extends it.
pub struct WithCore<F>(pub F);

/// The core's call that adds a command; `owner` is the core's name.
pub fn add_command_call<Arg, Handler>(owner: &str) -> (c: Call<AddCommand<Arg, Handler>, ()>)
    ensures
        c.name@ == "ADD_COMMAND"@,
        c.owner@ == owner@,
        c.id@ == crate::call::spec_id(owner@, "ADD_COMMAND"@),
{
    Call::new("ADD_COMMAND", owner)
}

/// The core's call that hands the core to a function that extends it;
/// `owner` is the core's name.
pub fn with_core_call<F>(owner: &str) -> (c: Call<WithCore<F>, ()>)
    ensures
        c.name@ == "WITH_CORE"@,
        c.owner@ == owner@,
        c.id@ == crate::call::spec_id(owner@, "WITH_CORE"@),
{
    Call::new("WITH_CORE", owner)
}

} // verus!
