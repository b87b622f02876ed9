# tnn

An extension host: extensions publish manifests (name, version, dependencies
with semver requirements), a repository resolves them and decides when each
one is activated, and macros let an extension describe itself and its
operations.

Layout:

- `src/` — the verified library (Verus).
  - `repository.rs`: the extension repository as a state machine. `add`
    resolves a manifest against the active extensions; the host runs the
    initializer the repository names and reports back with
    `activation_succeeded` or `activation_failed`; `inject` adds an
    extension whose dependencies are all active and names it at once. Laws
    at the end of the file.
  - `extension.rs`, `errors.rs`, `name_map.rs`, `version.rs`: manifests, the
    errors with their messages, the map used by the repository, and the
    semver checks.
  - `tokens.rs`, `extension_macro.rs`, `extension_def.rs`, `op_macro.rs`,
    `path_reference.rs`: the grammars of the `extension!`, `#[op]` and
    `extension_operation_function_reference!` macros over plain tokens, and
    what each expands to, down to the tokens `#[op]` writes. The grammars of
    `extension!` have declarative laws (`law_parse_accepts_properties`,
    `law_dependencies_accept_declarations`).
  - `call.rs`, `operation.rs`, `core_command.rs`, `loader.rs`: call and mixin
    descriptors, the extension context, operations, the host's command line,
    and platform library suffixes.
- `tests/` — tests of the library.
- `app/` — the unverified shell: procedural-macro front ends (compiler
  tokens in, code out), the asynchronous host that runs initializers, loading
  extensions from dynamic libraries, and the errors as `std::error::Error`.
