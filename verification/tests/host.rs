use tnn::call::{
    add_call_call, add_extension_call, add_mixin_call, dependent_activated_mixin,
    repository_locked_mixin, Call, CallContext, ExtensionContext, Mixin,
};
use tnn::core_command::{add_command_call, with_core_call, Core};
use tnn::errors::{
    CouldNotGetCallHandler, DuplicateCallError, DuplicateMixinError, ExtensionAcessDeniedError,
    ExtensionInstallationError, LockedError, NotCallOwnerError, NotMixinOwnerError,
};
use tnn::loader::{ext, library_pattern, os_type, OperativeSystem};
use tnn::name_map::NameMap;
use tnn::operation::{ExtensionContext as OperationContext, OpContext, Operation};
use tnn::version::check_version_against;

#[test]
fn os_type_follows_target_facts() {
    assert_eq!(os_type(true, false, false), OperativeSystem::Windows);
    assert_eq!(os_type(true, true, true), OperativeSystem::Windows);
    assert_eq!(os_type(false, true, true), OperativeSystem::Darwin);
    assert_eq!(os_type(false, false, true), OperativeSystem::Linux);
    assert_eq!(os_type(false, false, false), OperativeSystem::Unknown);
}

#[test]
fn library_suffixes() {
    assert_eq!(ext(OperativeSystem::Windows), "dll");
    assert_eq!(ext(OperativeSystem::Linux), "so");
    assert_eq!(ext(OperativeSystem::Darwin), "dylib");
    assert_eq!(library_pattern("so"), "*.so");
}

#[test]
fn version_checks() {
    assert_eq!(check_version_against("^1", "1.2.0"), Ok(true));
    assert_eq!(check_version_against(">= 0", "0.0.1"), Ok(true));
    assert_eq!(check_version_against("^2", "1.0.0"), Ok(false));
    assert!(check_version_against("not a requirement", "1.0.0").is_err());
    assert!(check_version_against("^1", "1.0").is_err());
}

#[test]
fn error_messages() {
    let s = |x: &str| x.to_string();
    assert_eq!(
        DuplicateCallError(s("a"), s("c")).message(),
        "Extension 'a' has already registered a handler for call 'a/c'"
    );
    assert_eq!(
        NotCallOwnerError(s("a"), s("b"), s("c")).message(),
        "Extension 'a' tried to add handler for call 'b/c'"
    );
    assert_eq!(
        DuplicateMixinError(s("a"), s("m")).message(),
        "Extension 'a' has already registered an approver for mixin 'a/m'"
    );
    assert_eq!(
        NotMixinOwnerError(s("a"), s("b"), s("m")).message(),
        "Extension 'a' tried to add approver for mixin 'b/m'"
    );
    assert_eq!(LockedError.message(), "Context is locked and cannot be modified!");
    assert_eq!(
        CouldNotGetCallHandler(s("a"), s("c")).message(),
        "Extension 'a' tried to call 'c', but call handler could not be downcasted."
    );
    assert_eq!(
        ExtensionAcessDeniedError(s("a"), s("b")).message(),
        "Extension 'a' tried to use 'b', access denied"
    );
}

#[test]
fn installation_error_messages() {
    let s = |x: &str| x.to_string();
    assert_eq!(ExtensionInstallationError::Locked.message(), "Repository is locked");
    assert_eq!(
        ExtensionInstallationError::ExtensionAlreadyAdded(s("a"), s("1.0.0"), s("2.0.0")).message(),
        "Extension 'a' has already been added with version '1.0.0', trying to add '2.0.0'!"
    );
    assert_eq!(
        ExtensionInstallationError::MissingDependency(s("a"), s("1"), s("b"), s("2")).message(),
        "Extension 'a@1' is missing a required dependency 'b@2'"
    );
    assert_eq!(
        ExtensionInstallationError::VersionMismatch(s("a"), s("1"), s("b"), s("2"), s("^3")).message(),
        "Extension 'a@1' expected dependency 'b' with a version in range(s) '^3', but got '2'"
    );
    assert_eq!(
        ExtensionInstallationError::DuplicateDependency(s("a"), s("1"), s("b")).message(),
        "Extension 'a@1' contains a duplicate dependency of 'b'"
    );
    assert_eq!(ExtensionInstallationError::ExtensionNotFound(s("a")).message(), "Extension 'a' not found!");
}

#[test]
fn call_and_mixin_ids() {
    let c: Call<u32, u32> = Call::new("Name", "example");
    assert_eq!((c.name.as_str(), c.owner.as_str(), c.id.as_str()), ("Name", "example", "example/Name"));
    let m: Mixin<()> = Mixin::new("EVT", "x");
    assert_eq!(m.id, "x/EVT");
    let e: Call<(), ()> = add_extension_call();
    assert_eq!(e.id, "/ADD_EXTENSION");
    let a: Call<_, ()> = add_call_call::<u8>();
    assert_eq!(a.id, "/ADD_CALL");
    let a: Call<_, ()> = add_mixin_call::<u8, u8>();
    assert_eq!(a.id, "/ADD_MIXIN");
    assert_eq!(dependent_activated_mixin().id, "/DEPENDENT_ACTIVATED");
    assert_eq!(repository_locked_mixin().id, "/REPOSITORY_LOCKED");
    let k: Call<_, ()> = add_command_call::<u8, u8>("core");
    assert_eq!(k.id, "core/ADD_COMMAND");
    let w: Call<_, ()> = with_core_call::<u8>("core");
    assert_eq!(w.id, "core/WITH_CORE");
}

#[test]
fn context_refuses_registrations_once_locked() {
    let mut ctx = ExtensionContext::new(7u32, "ext".to_string(), ());
    assert!(!ctx.is_locked());
    assert_eq!(*ctx.state(), 7);
    let call: Call<u8, u8> = Call::new("double", "math");
    let request = ctx.call(&call);
    assert_eq!((request.owner.as_str(), request.id.as_str(), request.caller.as_str()), ("math", "math/double", "ext"));
    match ctx.add_call(&call, 99u8) {
        Ok((request, args)) => {
            assert_eq!((request.owner.as_str(), request.id.as_str(), request.caller.as_str()), ("", "/ADD_CALL", "ext"));
            assert_eq!(args.call, "math/double");
            assert_eq!(args.handler, 99);
        }
        Err(_) => panic!("unexpected LockedError"),
    }
    assert!(ctx.assert_not_locked().is_ok());
    ctx.lock();
    assert!(ctx.is_locked());
    assert!(ctx.assert_not_locked().is_err());
    assert!(ctx.add_call(&call, 99u8).is_err());
    let mixin: Mixin<u8> = Mixin::new("m", "ext");
    assert!(ctx.add_mixin(&mixin, &1u8).is_err());
    let cc = CallContext::new(1u8, "caller".to_string(), "arg");
    assert_eq!((cc.state, cc.caller.as_str(), cc.argument), (1, "caller", "arg"));
}

#[test]
fn operations() {
    let op: Operation<String, String> = Operation::new("GREET", "showcase1");
    assert_eq!((op.name.as_str(), op.owner.as_str(), op.id.as_str()), ("GREET", "showcase1", "showcase1/GREET"));
    let ctx = OperationContext {};
    assert!(ctx.add_operation(&op, &0u8).is_ok());
    let oc = OpContext::new(5u8, "me".to_string());
    assert_eq!((oc.input, oc.caller.as_str()), (5, "me"));
}

#[test]
fn core_adds_the_hello_command() {
    let core = Core::new(clap::Command::new("tnn"));
    let command = core.add_command().finish();
    assert_eq!(command.get_name(), "tnn");
    let names: Vec<&str> = command.get_subcommands().map(|c| c.get_name()).collect();
    assert_eq!(names, vec!["hello"]);
}

#[test]
fn name_map_basics() {
    let mut m: NameMap<u32> = NameMap::new();
    assert!(m.is_empty());
    m.insert("a".to_string(), 1);
    m.insert("b".to_string(), 2);
    m.insert("a".to_string(), 3);
    assert_eq!(m.len(), 2);
    assert_eq!(m.get(&"a".to_string()), Some(&3));
    assert!(m.contains_key(&"b".to_string()));
    assert_eq!(m.remove(&"b".to_string()), Some(2));
    assert_eq!(m.remove(&"b".to_string()), None);
    assert_eq!(m.len(), 1);
    assert_eq!(m.key_at(0), "a");
    assert_eq!(*m.value_at_index(0), 3);
}
