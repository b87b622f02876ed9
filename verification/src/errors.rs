//! The errors of the extension host, each with the message it displays.

use vstd::prelude::*;

verus! {

/// An extension registered a second handler for one of its calls.
/// Fields: the extension, the call.
pub struct DuplicateCallError(pub String, pub String);

/// An extension tried to handle a call that another extension owns.
/// Fields: the extension, the call's owner, the call.
pub struct NotCallOwnerError(pub String, pub String, pub String);

/// An extension registered a second approver for one of its mixins.
/// Fields: the extension, the mixin.
pub struct DuplicateMixinError(pub String, pub String);

/// An extension tried to approve a mixin that another extension owns.
/// Fields: the extension, the mixin's owner, the mixin.
pub struct NotMixinOwnerError(pub String, pub String, pub String);

/// The context is locked and cannot be modified.
pub struct LockedError;

/// The handler of a call could not be obtained in the expected shape.
/// Fields: the calling extension, the call.
pub struct CouldNotGetCallHandler(pub String, pub String);

/// An extension used another one it has no access to.
/// Fields: the extension, the extension it tried to use.
pub struct ExtensionAcessDeniedError(pub String, pub String);

/// Why the repository refused an extension.
pub enum ExtensionInstallationError {
    /// The repository is locked.
    Locked,
    /// The extension has already been added: its name, the version added
    /// before, and the version now being added.
    ExtensionAlreadyAdded(String, String, String),
    /// A required dependency is missing: the dependent, its version, the
    /// dependency, the dependency's version.
    MissingDependency(String, String, String, String),
    /// A dependency has a version the dependent does not accept: the
    /// dependent, its version, the dependency, the dependency's version and
    /// the requirement.
    VersionMismatch(String, String, String, String, String),
    /// The extension lists the same dependency twice: its name, its version
    /// and the repeated dependency.
    DuplicateDependency(String, String, String),
    /// No extension of this name has been added.
    ExtensionNotFound(String),
}

/// Text built from string literals and values, for the messages.
fn text(s: &str) -> (r: String)
    ensures
        r@ == s@,
{
    String::from_str(s)
}

impl DuplicateCallError {
    pub fn message(&self) -> (m: String)
        ensures
            m@ == "Extension '"@ + self.0@ + "' has already registered a handler for call '"@
                + self.0@ + "/"@ + self.1@ + "'"@,
    {
        let mut m = text("Extension '");
        m.append(self.0.as_str());
        m.append("' has already registered a handler for call '");
        m.append(self.0.as_str());
        m.append("/");
        m.append(self.1.as_str());
        m.append("'");
        m
    }
}

impl NotCallOwnerError {
    pub fn message(&self) -> (m: String)
        ensures
            m@ == "Extension '"@ + self.0@ + "' tried to add handler for call '"@ + self.1@
                + "/"@ + self.2@ + "'"@,
    {
        let mut m = text("Extension '");
        m.append(self.0.as_str());
        m.append("' tried to add handler for call '");
        m.append(self.1.as_str());
        m.append("/");
        m.append(self.2.as_str());
        m.append("'");
        m
    }
}

impl DuplicateMixinError {
    pub fn message(&self) -> (m: String)
        ensures
            m@ == "Extension '"@ + self.0@ + "' has already registered an approver for mixin '"@
                + self.0@ + "/"@ + self.1@ + "'"@,
    {
        let mut m = text("Extension '");
        m.append(self.0.as_str());
        m.append("' has already registered an approver for mixin '");
        m.append(self.0.as_str());
        m.append("/");
        m.append(self.1.as_str());
        m.append("'");
        m
    }
}

impl NotMixinOwnerError {
    pub fn message(&self) -> (m: String)
        ensures
            m@ == "Extension '"@ + self.0@ + "' tried to add approver for mixin '"@ + self.1@
                + "/"@ + self.2@ + "'"@,
    {
        let mut m = text("Extension '");
        m.append(self.0.as_str());
        m.append("' tried to add approver for mixin '");
        m.append(self.1.as_str());
        m.append("/");
        m.append(self.2.as_str());
        m.append("'");
        m
    }
}

impl LockedError {
    pub fn message(&self) -> (m: String)
        ensures
            m@ == "Context is locked and cannot be modified!"@,
    {
        text("Context is locked and cannot be modified!")
    }
}

impl CouldNotGetCallHandler {
    pub fn message(&self) -> (m: String)
        ensures
            m@ == "Extension '"@ + self.0@ + "' tried to call '"@ + self.1@
                + "', but call handler could not be downcasted."@,
    {
        let mut m = text("Extension '");
        m.append(self.0.as_str());
        m.append("' tried to call '");
        m.append(self.1.as_str());
        m.append("', but call handler could not be downcasted.");
        m
    }
}

impl ExtensionAcessDeniedError {
    pub fn message(&self) -> (m: String)
        ensures
            m@ == "Extension '"@ + self.0@ + "' tried to use '"@ + self.1@ + "', access denied"@,
    {
        let mut m = text("Extension '");
        m.append(self.0.as_str());
        m.append("' tried to use '");
        m.append(self.1.as_str());
        m.append("', access denied");
        m
    }
}

impl ExtensionInstallationError {
    /// The message of each kind of refusal.
    pub open spec fn spec_message(&self) -> Seq<char> {
        match self {
            ExtensionInstallationError::Locked => "Repository is locked"@,
            ExtensionInstallationError::ExtensionAlreadyAdded(name, added, adding) =>
                "Extension '"@ + name@ + "' has already been added with version '"@ + added@
                    + "', trying to add '"@ + adding@ + "'!"@,
            ExtensionInstallationError::MissingDependency(dependent, dependent_version, dependency, dependency_version) =>
                "Extension '"@ + dependent@ + "@"@ + dependent_version@
                    + "' is missing a required dependency '"@ + dependency@ + "@"@
                    + dependency_version@ + "'"@,
            ExtensionInstallationError::VersionMismatch(dependent, dependent_version, dependency, dependency_version, matcher) =>
                "Extension '"@ + dependent@ + "@"@ + dependent_version@ + "' expected dependency '"@
                    + dependency@ + "' with a version in range(s) '"@ + matcher@ + "', but got '"@
                    + dependency_version@ + "'"@,
            ExtensionInstallationError::DuplicateDependency(name, version, dependency) =>
                "Extension '"@ + name@ + "@"@ + version@ + "' contains a duplicate dependency of '"@
                    + dependency@ + "'"@,
            ExtensionInstallationError::ExtensionNotFound(name) =>
                "Extension '"@ + name@ + "' not found!"@,
        }
    }

    pub fn message(&self) -> (m: String)
        ensures
            m@ == self.spec_message(),
    {
        match self {
            ExtensionInstallationError::Locked => text("Repository is locked"),
            ExtensionInstallationError::ExtensionAlreadyAdded(name, added, adding) => {
                let mut m = text("Extension '");
                m.append(name.as_str());
                m.append("' has already been added with version '");
                m.append(added.as_str());
                m.append("', trying to add '");
                m.append(adding.as_str());
                m.append("'!");
                m
            },
            ExtensionInstallationError::MissingDependency(dependent, dependent_version, dependency, dependency_version) => {
                let mut m = text("Extension '");
                m.append(dependent.as_str());
                m.append("@");
                m.append(dependent_version.as_str());
                m.append("' is missing a required dependency '");
                m.append(dependency.as_str());
                m.append("@");
                m.append(dependency_version.as_str());
                m.append("'");
                m
            },
            ExtensionInstallationError::VersionMismatch(dependent, dependent_version, dependency, dependency_version, matcher) => {
                let mut m = text("Extension '");
                m.append(dependent.as_str());
                m.append("@");
                m.append(dependent_version.as_str());
                m.append("' expected dependency '");
                m.append(dependency.as_str());
                m.append("' with a version in range(s) '");
                m.append(matcher.as_str());
                m.append("', but got '");
                m.append(dependency_version.as_str());
                m.append("'");
                m
            },
            ExtensionInstallationError::DuplicateDependency(name, version, dependency) => {
                let mut m = text("Extension '");
                m.append(name.as_str());
                m.append("@");
                m.append(version.as_str());
                m.append("' contains a duplicate dependency of '");
                m.append(dependency.as_str());
                m.append("'");
                m
            },
            ExtensionInstallationError::ExtensionNotFound(name) => {
                let mut m = text("Extension '");
                m.append(name.as_str());
                m.append("' not found!");
                m
            },
        }
    }
}

} // verus!
