//! The whole input of the `extension!` macro, and what it expands to.
//!
//! The input is a comma-separated list of properties `key = value`, each of
//! `name`, `version`, `dependencies` and `ops` given at most once. `name`
//! and `version` take a string literal, the version one that semver reads as
//! a version; `dependencies` and `ops` take the groups that their readers in
//! `extension_macro` accept.

use vstd::prelude::*;
use crate::tokens::{lit_str_value, spec_lit_str, SyntaxError, Token, TokenView};
use crate::extension_macro::{
    dependencies_handle, dependencies_start, operations_handle, operations_start,
    DependenciesState, DependencyDef, IdentToken, LitStr, OperationDef, OperationsState,
    dependency_defs_view, operation_defs_view,
};
use crate::version::{check_version, version_parse_error};

verus! {

/// The view of a string literal: its value, its text and its span.
pub type LitView = (Seq<char>, Seq<char>, u64);

/// The view of a dependency declaration: its name, its `optional` marker and
/// its requirement.
pub type DependencyDefView = ((Seq<char>, u64), Option<(Seq<char>, u64)>, LitView);

/// The view of an operation: the path of its function and of its constant.
pub type OperationDefView = (Seq<TokenView>, Seq<TokenView>);

/// A property of the macro's input.
#[derive(Clone, Copy, Debug, PartialEq, Eq, Structural)]
pub enum PropKind {
    Name,
    Version,
    Dependencies,
    Operations,
}

/// The property that a key names, if any.
pub open spec fn prop_kind(key: Seq<char>) -> Option<PropKind> {
    if key == "name"@ {
        Some(PropKind::Name)
    } else if key == "version"@ {
        Some(PropKind::Version)
    } else if key == "dependencies"@ {
        Some(PropKind::Dependencies)
    } else if key == "ops"@ {
        Some(PropKind::Operations)
    } else {
        None
    }
}

/// Where the reading of the input stands: before a key, before the `=` of
/// a property, before its value, or before the `,` that follows it.
pub enum StageModel {
    Key,
    Eq(PropKind),
    Parse(PropKind),
    Sep,
}

/// The properties read so far.
pub struct ExtensionModel {
    pub name: Option<LitView>,
    pub version: Option<LitView>,
    pub dependencies: Option<Seq<DependencyDefView>>,
    pub ops: Option<Seq<OperationDefView>>,
}

/// No property read.
pub open spec fn extension_model_empty() -> ExtensionModel {
    ExtensionModel { name: None, version: None, dependencies: None, ops: None }
}

/// Whether a property has been given.
pub open spec fn is_defined(d: ExtensionModel, k: PropKind) -> bool {
    match k {
        PropKind::Name => d.name is Some,
        PropKind::Version => d.version is Some,
        PropKind::Dependencies => d.dependencies is Some,
        PropKind::Operations => d.ops is Some,
    }
}

/// The text of a string literal without its first and last character: what
/// the version property hands to semver.
pub open spec fn version_text(text: Seq<char>) -> Seq<char> {
    text.subrange(1, text.len() - 1)
}

/// Reading one token of the input.
pub open spec fn parse_step(stage: StageModel, def: ExtensionModel, t: Token) -> Result<(StageModel, ExtensionModel), (u64, Seq<char>)> {
    match stage {
        StageModel::Key => match t {
            Token::Ident { name, span } => match prop_kind(name@) {
                None => Err((span, "Property '"@ + name@ + "' is not valid in this context"@)),
                Some(k) => if is_defined(def, k) {
                    Err((span, "Field is already defined"@))
                } else {
                    Ok((StageModel::Eq(k), def))
                },
            },
            _ => Err((t.spec_span(), "Unexpected token, expected identifier"@)),
        },
        StageModel::Eq(k) => if t.is_punct('=') {
            Ok((StageModel::Parse(k), def))
        } else {
            Err((t.spec_span(), "Unexpected token, expected token '='"@))
        },
        StageModel::Sep => match t {
            Token::Punct { ch, span, .. } => if ch == ',' {
                Ok((StageModel::Key, def))
            } else {
                Err((span, "Unexepcted punctuation '"@ + seq![ch] + "', expected punctuation ','"@))
            },
            _ => Err((t.spec_span(), "Unexepcted token, expected punctuation ','"@)),
        },
        StageModel::Parse(k) => match k {
            PropKind::Name => match t {
                Token::Literal { text, span } => match spec_lit_str(text@) {
                    Ok(value) => Ok(
                        (StageModel::Sep, ExtensionModel { name: Some((value, text@, span)), ..def }),
                    ),
                    Err(message) => Err((span, message)),
                },
                _ => Err((t.spec_span(), "Unexpected token, expected a string literal"@)),
            },
            PropKind::Version => match t {
                Token::Literal { text, span } => match spec_lit_str(text@) {
                    Ok(value) => match version_parse_error(version_text(text@)) {
                        Some(message) => Err((span, "invalid version: "@ + message)),
                        None => Ok(
                            (
                                StageModel::Sep,
                                ExtensionModel { version: Some((value, text@, span)), ..def },
                            ),
                        ),
                    },
                    Err(message) => Err((span, message)),
                },
                _ => Err((t.spec_span(), "Unexpected token, expected a string literal"@)),
            },
            PropKind::Dependencies => match dependencies_handle(dependencies_start(), t) {
                Ok(m) => Ok(
                    (StageModel::Sep, ExtensionModel { dependencies: Some(m.definitions), ..def }),
                ),
                Err(e) => Err(e),
            },
            PropKind::Operations => match operations_handle(operations_start(), t) {
                Ok(m) => Ok((StageModel::Sep, ExtensionModel { ops: Some(m.definitions), ..def })),
                Err(e) => Err(e),
            },
        },
    }
}

/// Reading the first `n` tokens of the input.
pub open spec fn parse_run(tokens: Seq<Token>, n: int) -> Result<(StageModel, ExtensionModel), (u64, Seq<char>)>
    decreases n,
{
    if n <= 0 {
        Ok((StageModel::Key, extension_model_empty()))
    } else {
        match parse_run(tokens, n - 1) {
            Err(e) => Err(e),
            Ok((stage, def)) => parse_step(stage, def, tokens[n - 1]),
        }
    }
}

/// Reading the whole input: an input may not stop after a key or after its
/// `=`; the error then points at the last token.
pub open spec fn parse_spec(tokens: Seq<Token>) -> Result<ExtensionModel, (u64, Seq<char>)> {
    match parse_run(tokens, tokens.len() as int) {
        Err(e) => Err(e),
        Ok((stage, def)) => match stage {
            StageModel::Eq(_) => Err(
                (tokens.last().spec_span(), "Unexpected end of input, missing token '='"@),
            ),
            StageModel::Parse(_) => Err(
                (tokens.last().spec_span(), "Unexpected end of input, missing value"@),
            ),
            _ => Ok(def),
        },
    }
}

/// The properties of an extension as its macro declares them.
pub struct ExtensionDef {
    pub name: Option<LitStr>,
    pub version: Option<LitStr>,
    pub dependencies: Option<Vec<DependencyDef>>,
    pub ops: Option<Vec<OperationDef>>,
}

/// The view of an optional string literal.
pub open spec fn lit_option_view(l: Option<LitStr>) -> Option<LitView> {
    match l {
        Some(l) => Some(l.view()),
        None => None,
    }
}

impl ExtensionDef {
    pub open spec fn view(&self) -> ExtensionModel {
        ExtensionModel {
            name: lit_option_view(self.name),
            version: lit_option_view(self.version),
            dependencies: match self.dependencies {
                Some(d) => Some(dependency_defs_view(d@)),
                None => None,
            },
            ops: match self.ops {
                Some(o) => Some(operation_defs_view(o@)),
                None => None,
            },
        }
    }

    /// Whether a property has been given.
    fn is_defined(&self, k: PropKind) -> (b: bool)
        ensures
            b == is_defined(self.view(), k),
    {
        match k {
            PropKind::Name => self.name.is_some(),
            PropKind::Version => self.version.is_some(),
            PropKind::Dependencies => self.dependencies.is_some(),
            PropKind::Operations => self.ops.is_some(),
        }
    }
}

/// The property a key names, with the reader of its value.
pub enum ParseProp {
    Name,
    Version,
    Dependencies(DependenciesState),
    Operations(OperationsState),
}

impl ParseProp {
    /// Which property it is.
    pub open spec fn kind(&self) -> PropKind {
        match self {
            ParseProp::Name => PropKind::Name,
            ParseProp::Version => PropKind::Version,
            ParseProp::Dependencies(_) => PropKind::Dependencies,
            ParseProp::Operations(_) => PropKind::Operations,
        }
    }

    /// Whether its reader has read nothing yet.
    pub open spec fn fresh(&self) -> bool {
        match self {
            ParseProp::Dependencies(s) => s.inv() && s.view() == dependencies_start(),
            ParseProp::Operations(s) => s.inv() && s.view() == operations_start(),
            _ => true,
        }
    }

    /// The property a key names; any other key is an error at the key.
    pub fn from_ident(ident: &IdentToken) -> (r: Result<ParseProp, SyntaxError>)
        ensures
            match prop_kind(ident.name@) {
                Some(k) => r matches Ok(p) && p.kind() == k && p.fresh(),
                None => r matches Err(e) && e.view() == (
                    ident.span,
                    "Property '"@ + ident.name@ + "' is not valid in this context"@,
                ),
            },
    {
        if ident.name == String::from_str("name") {
            Ok(ParseProp::Name)
        } else if ident.name == String::from_str("version") {
            Ok(ParseProp::Version)
        } else if ident.name == String::from_str("dependencies") {
            Ok(ParseProp::Dependencies(DependenciesState::new()))
        } else if ident.name == String::from_str("ops") {
            Ok(ParseProp::Operations(OperationsState::new()))
        } else {
            let mut message = String::from_str("Property '");
            message.append(ident.name.as_str());
            message.append("' is not valid in this context");
            Err(SyntaxError { span: ident.span, message })
        }
    }
}

/// Where the reading of the input stands.
pub enum ParseState {
    Key,
    Eq(ParseProp),
    Parse(ParseProp),
    Sep,
}

impl ParseState {
    pub open spec fn stage(&self) -> StageModel {
        match self {
            ParseState::Key => StageModel::Key,
            ParseState::Eq(p) => StageModel::Eq(p.kind()),
            ParseState::Parse(p) => StageModel::Parse(p.kind()),
            ParseState::Sep => StageModel::Sep,
        }
    }

    /// The reader of a property not yet given has read nothing.
    pub open spec fn fresh(&self) -> bool {
        match self {
            ParseState::Eq(p) => p.fresh(),
            ParseState::Parse(p) => p.fresh(),
            _ => true,
        }
    }
}

/// An error at `span` with a fixed message.
fn syntax_error(span: u64, message: &str) -> (e: SyntaxError)
    ensures
        e.view() == (span, message@),
{
    SyntaxError { span, message: String::from_str(message) }
}

/// Reads one token of the input.
fn parse_token(state: ParseState, def: &mut ExtensionDef, token: &Token) -> (r: Result<ParseState, SyntaxError>)
    requires
        state.fresh(),
    ensures
        match parse_step(state.stage(), old(def).view(), *token) {
            Ok((stage, d)) => r matches Ok(s) && s.stage() == stage && s.fresh() && final(def).view() == d,
            Err(e) => r matches Err(err) && err.view() == e,
        },
{
    match state {
        ParseState::Key => match token {
            Token::Ident { name, span } => {
                let ident = IdentToken { name: name.clone(), span: *span };
                let prop = match ParseProp::from_ident(&ident) {
                    Ok(p) => p,
                    Err(e) => return Err(e),
                };
                if def.is_defined(
                    match &prop {
                        ParseProp::Name => PropKind::Name,
                        ParseProp::Version => PropKind::Version,
                        ParseProp::Dependencies(_) => PropKind::Dependencies,
                        ParseProp::Operations(_) => PropKind::Operations,
                    },
                ) {
                    return Err(syntax_error(*span, "Field is already defined"));
                }
                Ok(ParseState::Eq(prop))
            },
            _ => Err(syntax_error(token.span(), "Unexpected token, expected identifier")),
        },
        ParseState::Eq(prop) => match token {
            Token::Punct { ch, span, .. } => {
                if *ch != '=' {
                    return Err(syntax_error(*span, "Unexpected token, expected token '='"));
                }
                Ok(ParseState::Parse(prop))
            },
            _ => Err(syntax_error(token.span(), "Unexpected token, expected token '='")),
        },
        ParseState::Sep => match token {
            Token::Punct { ch, span, .. } => {
                if *ch != ',' {
                    return Err(
                        SyntaxError {
                            span: *span,
                            message: crate::tokens::quoted_char_message(
                                "Unexepcted punctuation '",
                                *ch,
                                "', expected punctuation ','",
                            ),
                        },
                    );
                }
                Ok(ParseState::Key)
            },
            _ => Err(syntax_error(token.span(), "Unexepcted token, expected punctuation ','")),
        },
        ParseState::Parse(prop) => match prop {
            ParseProp::Name => match token {
                Token::Literal { text, span } => match lit_str_value(text.as_str()) {
                    Ok(value) => {
                        def.name = Some(LitStr { value, text: text.clone(), span: *span });
                        Ok(ParseState::Sep)
                    },
                    Err(message) => Err(SyntaxError { span: *span, message }),
                },
                _ => Err(syntax_error(token.span(), "Unexpected token, expected a string literal")),
            },
            ParseProp::Version => match token {
                Token::Literal { text, span } => match lit_str_value(text.as_str()) {
                    Ok(value) => {
                        let n = text.as_str().unicode_len();
                        let inner = text.as_str().substring_char(1, n - 1);
                        match check_version(inner) {
                            Err(message) => {
                                let mut m = String::from_str("invalid version: ");
                                m.append(message.as_str());
                                return Err(SyntaxError { span: *span, message: m });
                            },
                            Ok(()) => {},
                        }
                        def.version = Some(LitStr { value, text: text.clone(), span: *span });
                        Ok(ParseState::Sep)
                    },
                    Err(message) => Err(SyntaxError { span: *span, message }),
                },
                _ => Err(syntax_error(token.span(), "Unexpected token, expected a string literal")),
            },
            ParseProp::Dependencies(mut dependencies_state) => {
                match dependencies_state.handle_token(token) {
                    Ok(()) => {},
                    Err(e) => return Err(e),
                }
                def.dependencies = Some(dependencies_state.take_definitions());
                Ok(ParseState::Sep)
            },
            ParseProp::Operations(mut operations_state) => {
                match operations_state.handle_token(token) {
                    Ok(()) => {},
                    Err(e) => return Err(e),
                }
                def.ops = Some(operations_state.take_definitions());
                Ok(ParseState::Sep)
            },
        },
    }
}

/// Reads the input of the `extension!` macro into the properties it gives.
pub fn parse(tokens: Vec<Token>) -> (r: Result<ExtensionDef, SyntaxError>)
    ensures
        match parse_spec(tokens@) {
            Ok(d) => r matches Ok(def) && def.view() == d,
            Err(e) => r matches Err(err) && err.view() == e,
        },
{
    let mut def = ExtensionDef { name: None, version: None, dependencies: None, ops: None };
    let mut state = ParseState::Key;
    let n = tokens.len();
    let mut i: usize = 0;
    while i < n
        invariant
            n == tokens@.len(),
            i <= n,
            state.fresh(),
            parse_run(tokens@, i as int) == Ok::<(StageModel, ExtensionModel), (u64, Seq<char>)>(
                (state.stage(), def.view()),
            ),
        decreases n - i,
    {
        state = match parse_token(state, &mut def, &tokens[i]) {
            Ok(s) => s,
            Err(e) => {
                proof {
                    lemma_parse_error_persists(tokens@, i as int + 1, n as int);
                }
                return Err(e);
            },
        };
        i = i + 1;
    }
    match state {
        ParseState::Eq(_) => Err(
            syntax_error(tokens[n - 1].span(), "Unexpected end of input, missing token '='"),
        ),
        ParseState::Parse(_) => Err(
            syntax_error(tokens[n - 1].span(), "Unexpected end of input, missing value"),
        ),
        _ => Ok(def),
    }
}

proof fn lemma_parse_error_persists(tokens: Seq<Token>, i: int, n: int)
    requires
        0 <= i <= n,
        parse_run(tokens, i) is Err,
    ensures
        parse_run(tokens, n) == parse_run(tokens, i),
    decreases n - i,
{
    if i < n {
        lemma_parse_error_persists(tokens, i + 1, n);
    }
}

/// A dependency as the expansion declares it: required or optional, its
/// name, and its version requirement.
pub struct DependencyExpansion {
    pub required: bool,
    pub name: IdentToken,
    pub version_matcher: LitStr,
}

impl DependencyExpansion {
    pub open spec fn view(&self) -> (bool, (Seq<char>, u64), LitView) {
        (self.required, self.name.view(), self.version_matcher.view())
    }
}

/// What the `extension!` macro expands to: the manifest of the extension.
pub struct ExtensionExpansion {
    /// The extension's name; `None` stands for the name of the package.
    pub name: Option<LitStr>,
    /// Its version; `None` stands for the version of the package.
    pub version: Option<LitStr>,
    /// Its dependencies, in the order declared.
    pub dependencies: Vec<DependencyExpansion>,
    /// The operations its initializer registers, in the order listed;
    /// `None` when it has no initializer.
    pub init: Option<Vec<OperationDef>>,
}

/// The view of an expansion.
pub struct ExpansionModel {
    pub name: Option<LitView>,
    pub version: Option<LitView>,
    pub dependencies: Seq<(bool, (Seq<char>, u64), LitView)>,
    pub init: Option<Seq<OperationDefView>>,
}

/// The view of a dependency's expansion, as a function.
pub open spec fn dependency_expansion_view() -> spec_fn(DependencyExpansion) -> (bool, (Seq<char>, u64), LitView) {
    |d: DependencyExpansion| d.view()
}

impl ExtensionExpansion {
    pub open spec fn view(&self) -> ExpansionModel {
        ExpansionModel {
            name: lit_option_view(self.name),
            version: lit_option_view(self.version),
            dependencies: self.dependencies@.map_values(dependency_expansion_view()),
            init: match self.init {
                Some(o) => Some(operation_defs_view(o@)),
                None => None,
            },
        }
    }
}

/// A declared dependency is required unless marked `optional`.
pub open spec fn dependency_expansion(d: DependencyDefView) -> (bool, (Seq<char>, u64), LitView) {
    (d.1 is None, d.0, d.2)
}

/// The operations an initializer registers: none means no initializer.
pub open spec fn init_expansion(ops: Seq<OperationDefView>) -> Option<Seq<OperationDefView>> {
    if ops.len() == 0 {
        None
    } else {
        Some(ops)
    }
}

/// What the macro expands to, from the properties given: the name and
/// version as given, each dependency in order, and the operations listed.
pub open spec fn expansion_spec(d: ExtensionModel) -> ExpansionModel {
    ExpansionModel {
        name: d.name,
        version: d.version,
        dependencies: d.dependencies->0.map_values(
            |x: DependencyDefView| dependency_expansion(x),
        ),
        init: init_expansion(
            match d.ops {
                Some(o) => o,
                None => Seq::empty(),
            },
        ),
    }
}

fn expand_optional_dependency(dep: DependencyDef) -> (e: DependencyExpansion)
    ensures
        e.view() == (false, dep.name_ident.view(), dep.version_req_literal.view()),
{
    DependencyExpansion { required: false, name: dep.name_ident, version_matcher: dep.version_req_literal }
}

fn expand_required_dependency(dep: DependencyDef) -> (e: DependencyExpansion)
    ensures
        e.view() == (true, dep.name_ident.view(), dep.version_req_literal.view()),
{
    DependencyExpansion { required: true, name: dep.name_ident, version_matcher: dep.version_req_literal }
}

fn expand_dependency(dep: DependencyDef) -> (e: DependencyExpansion)
    ensures
        e.view() == dependency_expansion(dep.view()),
{
    if dep.optional_ident.is_some() {
        expand_optional_dependency(dep)
    } else {
        expand_required_dependency(dep)
    }
}

fn expand_init(ops: Vec<OperationDef>) -> (r: Option<Vec<OperationDef>>)
    ensures
        match r {
            Some(v) => init_expansion(operation_defs_view(ops@)) == Some(operation_defs_view(v@)),
            None => init_expansion(operation_defs_view(ops@)) is None,
        },
{
    if ops.len() == 0 {
        None
    } else {
        Some(ops)
    }
}

/// What the `extension!` macro expands to. The properties must include the
/// dependencies, which the expansion lists.
pub fn expand(ext: ExtensionDef) -> (e: ExtensionExpansion)
    requires
        ext.dependencies is Some,
    ensures
        e.view() == expansion_spec(ext.view()),
{
    let ghost model = ext.view();
    let ExtensionDef { name, version, dependencies, ops } = ext;
    let deps = match dependencies {
        Some(d) => d,
        None => Vec::new(),
    };
    let mut dependency_stream: Vec<DependencyExpansion> = Vec::new();
    let n = deps.len();
    let mut i: usize = 0;
    while i < n
        invariant
            n == deps@.len(),
            i <= n,
            model.dependencies == Some(dependency_defs_view(deps@)),
            dependency_stream@.map_values(dependency_expansion_view()) =~= dependency_defs_view(
                deps@,
            ).take(i as int).map_values(|x: DependencyDefView| dependency_expansion(x)),
        decreases n - i,
    {
        let ghost before = dependency_stream@;
        let e = expand_dependency(deps[i].duplicate());
        dependency_stream.push(e);
        proof {
            before.lemma_push_map_commute(dependency_expansion_view(), e);
            assert(dependency_defs_view(deps@).take(i as int + 1) =~= dependency_defs_view(
                deps@,
            ).take(i as int).push(deps@[i as int].view()));
        }
        i = i + 1;
    }
    proof {
        assert(dependency_defs_view(deps@).take(n as int) =~= dependency_defs_view(deps@));
    }
    let listed = match ops {
        Some(o) => o,
        None => Vec::new(),
    };
    proof {
        if model.ops is None {
            assert(operation_defs_view(listed@) =~= Seq::empty());
        }
    }
    let init = expand_init(listed);
    ExtensionExpansion { name, version, dependencies: dependency_stream, init }
}

/// Whether a token is an accepted value of the property `k`: a string
/// literal for the name; one whose text, without its first and last
/// character, semver reads as a version for the version; a group that the
/// readers of `dependencies` and `ops` accept for those.
pub open spec fn value_fits(k: PropKind, t: Token) -> bool {
    match k {
        PropKind::Name => t matches Token::Literal { text, .. } && spec_lit_str(text@) is Ok,
        PropKind::Version => t matches Token::Literal { text, .. } && spec_lit_str(text@) is Ok
            && version_parse_error(version_text(text@)) is None,
        PropKind::Dependencies => dependencies_handle(dependencies_start(), t) is Ok,
        PropKind::Operations => operations_handle(operations_start(), t) is Ok,
    }
}

/// The properties of the macro's input, when `done` are the properties
/// given before: nothing, or a key naming a property not given before,
/// `=`, an accepted value, and what may follow a property.
pub open spec fn properties(tokens: Seq<Token>, done: Set<PropKind>) -> bool
    decreases tokens.len(), 1int,
{
    if tokens.len() == 0 {
        true
    } else {
        tokens.len() >= 3 && (tokens[0] matches Token::Ident { name, .. } && prop_kind(name@) is Some
            && !done.contains(prop_kind(name@)->0) && tokens[1].is_punct('=') && value_fits(
            prop_kind(name@)->0,
            tokens[2],
        ) && after_property(tokens.skip(3), done.insert(prop_kind(name@)->0)))
    }
}

/// What may follow a property: nothing, or a `,` and more properties.
pub open spec fn after_property(tokens: Seq<Token>, done: Set<PropKind>) -> bool
    decreases tokens.len(), 0int,
{
    if tokens.len() == 0 {
        true
    } else {
        tokens[0].is_punct(',') && properties(tokens.skip(1), done)
    }
}

/// The properties given in a model.
pub open spec fn given(d: ExtensionModel) -> Set<PropKind> {
    Set::new(|k: PropKind| is_defined(d, k))
}

/// Reading from a stage and properties, over the first `n` tokens.
pub open spec fn parse_from(stage: StageModel, def: ExtensionModel, tokens: Seq<Token>, n: int) -> Result<(StageModel, ExtensionModel), (u64, Seq<char>)>
    decreases n,
{
    if n <= 0 {
        Ok((stage, def))
    } else {
        match parse_from(stage, def, tokens, n - 1) {
            Err(e) => Err(e),
            Ok((st, d)) => parse_step(st, d, tokens[n - 1]),
        }
    }
}

/// Reading `rest` front to back: whether it ends without an error, not
/// after a key or its `=`.
pub open spec fn parse_read_ok(stage: StageModel, def: ExtensionModel, rest: Seq<Token>) -> bool
    decreases rest.len(),
{
    if rest.len() == 0 {
        stage is Key || stage is Sep
    } else {
        match parse_step(stage, def, rest[0]) {
            Ok((st, d)) => parse_read_ok(st, d, rest.skip(1)),
            Err(_) => false,
        }
    }
}

proof fn lemma_parse_run_from(tokens: Seq<Token>, n: int)
    ensures
        parse_run(tokens, n) == parse_from(StageModel::Key, extension_model_empty(), tokens, n),
    decreases n,
{
    if n > 0 {
        lemma_parse_run_from(tokens, n - 1);
    }
}

proof fn lemma_parse_from_error(stage: StageModel, def: ExtensionModel, tokens: Seq<Token>, i: int, n: int)
    requires
        0 <= i <= n,
        parse_from(stage, def, tokens, i) is Err,
    ensures
        parse_from(stage, def, tokens, n) is Err,
    decreases n - i,
{
    if i < n {
        lemma_parse_from_error(stage, def, tokens, i + 1, n);
    }
}

proof fn lemma_parse_from_split(stage: StageModel, def: ExtensionModel, tokens: Seq<Token>, n: int)
    requires
        1 <= n <= tokens.len(),
        parse_step(stage, def, tokens[0]) is Ok,
    ensures
        parse_from(stage, def, tokens, n) == parse_from(
            parse_step(stage, def, tokens[0])->Ok_0.0,
            parse_step(stage, def, tokens[0])->Ok_0.1,
            tokens.skip(1),
            n - 1,
        ),
    decreases n,
{
    if n > 1 {
        lemma_parse_from_split(stage, def, tokens, n - 1);
        assert(tokens.skip(1)[n - 2] == tokens[n - 1]);
    } else {
        assert(parse_from(stage, def, tokens, 0) == Ok::<(StageModel, ExtensionModel), (u64, Seq<char>)>(
            (stage, def),
        ));
    }
}

proof fn lemma_parse_read(stage: StageModel, def: ExtensionModel, rest: Seq<Token>)
    ensures
        parse_read_ok(stage, def, rest) <==> (parse_from(stage, def, rest, rest.len() as int) matches Ok(
            (st, _),
        ) && (st is Key || st is Sep)),
    decreases rest.len(),
{
    if rest.len() > 0 {
        match parse_step(stage, def, rest[0]) {
            Ok((st, d)) => {
                lemma_parse_from_split(stage, def, rest, rest.len() as int);
                lemma_parse_read(st, d, rest.skip(1));
            },
            Err(_) => {
                assert(parse_from(stage, def, rest, 0) == Ok::<(StageModel, ExtensionModel), (u64, Seq<char>)>(
                    (stage, def),
                ));
                assert(parse_from(stage, def, rest, 1) is Err);
                lemma_parse_from_error(stage, def, rest, 1, rest.len() as int);
            },
        }
    }
}

proof fn lemma_read_properties(def: ExtensionModel, t: Seq<Token>)
    ensures
        parse_read_ok(StageModel::Key, def, t) == properties(t, given(def)),
    decreases t.len(), 1int,
{
    if t.len() > 0 {
        if let Token::Ident { name, .. } = t[0] {
            if let Some(k) = prop_kind(name@) {
                if !is_defined(def, k) {
                    let t1 = t.skip(1);
                    assert(parse_read_ok(StageModel::Key, def, t) == parse_read_ok(StageModel::Eq(k), def, t1));
                    if t1.len() > 0 {
                        assert(t1[0] == t[1]);
                        if t[1].is_punct('=') {
                            let t2 = t1.skip(1);
                            assert(parse_read_ok(StageModel::Eq(k), def, t1) == parse_read_ok(
                                StageModel::Parse(k),
                                def,
                                t2,
                            ));
                            if t2.len() > 0 {
                                assert(t2[0] == t[2]);
                                match parse_step(StageModel::Parse(k), def, t[2]) {
                                    Ok((st, d)) => {
                                        assert(value_fits(k, t[2]));
                                        assert(st is Sep);
                                        assert(given(d) =~= given(def).insert(k));
                                        lemma_read_after(d, t2.skip(1));
                                        assert(t2.skip(1) =~= t.skip(3));
                                    },
                                    Err(_) => {
                                        assert(!value_fits(k, t[2]));
                                    },
                                }
                            } else {
                                assert(!parse_read_ok(StageModel::Parse(k), def, t2));
                            }
                        } else {
                            assert(!parse_read_ok(StageModel::Eq(k), def, t1));
                        }
                    } else {
                        assert(!parse_read_ok(StageModel::Eq(k), def, t1));
                    }
                }
            }
        }
    }
}

proof fn lemma_read_after(def: ExtensionModel, t: Seq<Token>)
    ensures
        parse_read_ok(StageModel::Sep, def, t) == after_property(t, given(def)),
    decreases t.len(), 0int,
{
    if t.len() > 0 && t[0].is_punct(',') {
        lemma_read_properties(def, t.skip(1));
    }
}

/// The macro's input is accepted exactly when it is a list of properties
/// `key = value`, separated by commas with a trailing comma allowed, each
/// key one of `name`, `version`, `dependencies` and `ops`, given at most
/// once, with a value that property accepts.
pub proof fn law_parse_accepts_properties(tokens: Seq<Token>)
    ensures
        parse_spec(tokens) is Ok <==> properties(tokens, Set::empty()),
{
    lemma_parse_run_from(tokens, tokens.len() as int);
    lemma_parse_read(StageModel::Key, extension_model_empty(), tokens);
    lemma_read_properties(extension_model_empty(), tokens);
    assert(given(extension_model_empty()) =~= Set::<PropKind>::empty());
}

/// The literal given to the property `k` (the name or the version): the
/// value, text and span of the literal written after `k = ` at the top
/// level of the input, read front to back; `None` when no such property is
/// written.
pub open spec fn written_literal(tokens: Seq<Token>, k: PropKind) -> Option<LitView>
    decreases tokens.len(), 1int,
{
    if tokens.len() >= 3 {
        if tokens[0] matches Token::Ident { name, .. } && prop_kind(name@) == Some(k) {
            match tokens[2] {
                Token::Literal { text, span } => Some((spec_lit_str(text@)->Ok_0, text@, span)),
                _ => None,
            }
        } else {
            written_literal_after(tokens.skip(3), k)
        }
    } else {
        None
    }
}

/// The literal given to `k` after the value of a property.
pub open spec fn written_literal_after(tokens: Seq<Token>, k: PropKind) -> Option<LitView>
    decreases tokens.len(), 0int,
{
    if tokens.len() == 0 {
        None
    } else {
        written_literal(tokens.skip(1), k)
    }
}

/// The literal held for the property `k` (the name or the version).
pub open spec fn held_literal(d: ExtensionModel, k: PropKind) -> Option<LitView> {
    match k {
        PropKind::Name => d.name,
        _ => d.version,
    }
}

proof fn lemma_written_key(def: ExtensionModel, t: Seq<Token>, k: PropKind)
    requires
        k == PropKind::Name || k == PropKind::Version,
        parse_read_ok(StageModel::Key, def, t),
    ensures
        parse_from(StageModel::Key, def, t, t.len() as int) matches Ok((_, d)) && held_literal(d, k) == (
        if held_literal(def, k) is Some {
            held_literal(def, k)
        } else {
            written_literal(t, k)
        }),
    decreases t.len(), 1int,
{
    if t.len() == 0 {
        assert(parse_from(StageModel::Key, def, t, 0) == Ok::<(StageModel, ExtensionModel), (u64, Seq<char>)>(
            (StageModel::Key, def),
        ));
    } else {
        let (st1, d1) = parse_step(StageModel::Key, def, t[0])->Ok_0;
        let t1 = t.skip(1);
        assert(parse_read_ok(st1, d1, t1));
        assert(st1 is Eq);
        assert(t1.len() > 0);
        lemma_parse_from_split(StageModel::Key, def, t, t.len() as int);
        assert(t1[0] == t[1]);
        let (st2, d2) = parse_step(st1, d1, t1[0])->Ok_0;
        let t2 = t1.skip(1);
        assert(parse_read_ok(st2, d2, t2));
        assert(st2 is Parse);
        assert(t2.len() > 0);
        lemma_parse_from_split(st1, d1, t1, t1.len() as int);
        assert(t2[0] == t[2]);
        let (st3, d3) = parse_step(st2, d2, t2[0])->Ok_0;
        let t3 = t2.skip(1);
        assert(parse_read_ok(st3, d3, t3));
        lemma_parse_from_split(st2, d2, t2, t2.len() as int);
        assert(t3 =~= t.skip(3));
        assert(st3 is Sep);
        lemma_written_after(d3, t3, k);
        if let Token::Ident { name, .. } = t[0] {
            if prop_kind(name@) == Some(k) {
                assert(held_literal(def, k) is None);
            }
        }
    }
}

proof fn lemma_written_after(def: ExtensionModel, t: Seq<Token>, k: PropKind)
    requires
        k == PropKind::Name || k == PropKind::Version,
        parse_read_ok(StageModel::Sep, def, t),
    ensures
        parse_from(StageModel::Sep, def, t, t.len() as int) matches Ok((_, d)) && held_literal(d, k) == (
        if held_literal(def, k) is Some {
            held_literal(def, k)
        } else {
            written_literal_after(t, k)
        }),
    decreases t.len(), 0int,
{
    if t.len() == 0 {
        assert(parse_from(StageModel::Sep, def, t, 0) == Ok::<(StageModel, ExtensionModel), (u64, Seq<char>)>(
            (StageModel::Sep, def),
        ));
    } else {
        lemma_parse_from_split(StageModel::Sep, def, t, t.len() as int);
        lemma_written_key(def, t.skip(1), k);
    }
}

/// The name and the version of the expansion are the literals given to
/// the `name` and `version` properties of the input, and `None` exactly
/// when the input does not give that property.
pub proof fn law_expansion_keeps_given_literals(tokens: Seq<Token>)
    requires
        parse_spec(tokens) is Ok,
    ensures
        expansion_spec(parse_spec(tokens)->Ok_0).name == written_literal(tokens, PropKind::Name),
        expansion_spec(parse_spec(tokens)->Ok_0).version == written_literal(tokens, PropKind::Version),
{
    law_parse_accepts_properties(tokens);
    lemma_read_properties(extension_model_empty(), tokens);
    assert(given(extension_model_empty()) =~= Set::<PropKind>::empty());
    lemma_parse_run_from(tokens, tokens.len() as int);
    lemma_written_key(extension_model_empty(), tokens, PropKind::Name);
    lemma_written_key(extension_model_empty(), tokens, PropKind::Version);
}

/// The value token written after `k = ` at the top level of the input,
/// read front to back; `None` when the property is not written.
pub open spec fn written_value_token(tokens: Seq<Token>, k: PropKind) -> Option<Token>
    decreases tokens.len(), 1int,
{
    if tokens.len() >= 3 {
        if tokens[0] matches Token::Ident { name, .. } && prop_kind(name@) == Some(k) {
            Some(tokens[2])
        } else {
            written_value_token_after(tokens.skip(3), k)
        }
    } else {
        None
    }
}

/// The value token written for `k` after the value of a property.
pub open spec fn written_value_token_after(tokens: Seq<Token>, k: PropKind) -> Option<Token>
    decreases tokens.len(), 0int,
{
    if tokens.len() == 0 {
        None
    } else {
        written_value_token(tokens.skip(1), k)
    }
}

/// What the dependencies and operations read from their written groups
/// are, once the input has been read.
pub open spec fn groups_held(before: ExtensionModel, after: ExtensionModel, dependencies: Option<Token>, ops: Option<Token>) -> bool {
    &&& dependencies matches Some(g) ==> dependencies_handle(dependencies_start(), g) is Ok
    &&& ops matches Some(g) ==> operations_handle(operations_start(), g) is Ok
    &&& after.dependencies == if before.dependencies is Some {
        before.dependencies
    } else {
        match dependencies {
            Some(g) => Some(dependencies_handle(dependencies_start(), g)->Ok_0.definitions),
            None => None,
        }
    }
    &&& after.ops == if before.ops is Some {
        before.ops
    } else {
        match ops {
            Some(g) => Some(operations_handle(operations_start(), g)->Ok_0.definitions),
            None => None,
        }
    }
}

proof fn lemma_groups_key(def: ExtensionModel, t: Seq<Token>)
    requires
        parse_read_ok(StageModel::Key, def, t),
    ensures
        parse_from(StageModel::Key, def, t, t.len() as int) matches Ok((_, d)) && groups_held(
            def,
            d,
            written_value_token(t, PropKind::Dependencies),
            written_value_token(t, PropKind::Operations),
        ),
    decreases t.len(), 1int,
{
    if t.len() == 0 {
        assert(parse_from(StageModel::Key, def, t, 0) == Ok::<(StageModel, ExtensionModel), (u64, Seq<char>)>(
            (StageModel::Key, def),
        ));
    } else {
        let (st1, d1) = parse_step(StageModel::Key, def, t[0])->Ok_0;
        let t1 = t.skip(1);
        assert(parse_read_ok(st1, d1, t1));
        assert(st1 is Eq);
        assert(t1.len() > 0);
        lemma_parse_from_split(StageModel::Key, def, t, t.len() as int);
        assert(t1[0] == t[1]);
        let (st2, d2) = parse_step(st1, d1, t1[0])->Ok_0;
        let t2 = t1.skip(1);
        assert(parse_read_ok(st2, d2, t2));
        assert(st2 is Parse);
        assert(t2.len() > 0);
        lemma_parse_from_split(st1, d1, t1, t1.len() as int);
        assert(t2[0] == t[2]);
        let (st3, d3) = parse_step(st2, d2, t2[0])->Ok_0;
        let t3 = t2.skip(1);
        assert(parse_read_ok(st3, d3, t3));
        lemma_parse_from_split(st2, d2, t2, t2.len() as int);
        assert(t3 =~= t.skip(3));
        lemma_groups_after(d3, t3);
    }
}

proof fn lemma_groups_after(def: ExtensionModel, t: Seq<Token>)
    requires
        parse_read_ok(StageModel::Sep, def, t),
    ensures
        parse_from(StageModel::Sep, def, t, t.len() as int) matches Ok((_, d)) && groups_held(
            def,
            d,
            written_value_token_after(t, PropKind::Dependencies),
            written_value_token_after(t, PropKind::Operations),
        ),
    decreases t.len(), 0int,
{
    if t.len() == 0 {
        assert(parse_from(StageModel::Sep, def, t, 0) == Ok::<(StageModel, ExtensionModel), (u64, Seq<char>)>(
            (StageModel::Sep, def),
        ));
    } else {
        lemma_parse_from_split(StageModel::Sep, def, t, t.len() as int);
        lemma_groups_key(def, t.skip(1));
    }
}

/// The dependencies and the initializer of the expansion follow what the
/// input writes: each dependency declared in the `dependencies` group, in
/// order, with its own name and version literal, required exactly when no
/// `optional` is written in its declaration; and an initializer exactly
/// when the `ops` group lists operations, registering each listed path,
/// in order, with the path of its constant.
pub proof fn law_expansion_follows_written_groups(tokens: Seq<Token>)
    requires
        parse_spec(tokens) is Ok,
        parse_spec(tokens)->Ok_0.dependencies is Some,
    ensures
        ({
            let e = expansion_spec(parse_spec(tokens)->Ok_0);
            &&& written_value_token(tokens, PropKind::Dependencies) matches Some(Token::Group { stream, .. }) && {
                let w = crate::extension_macro::written_declarations(stream@);
                &&& e.dependencies.len() == w.len()
                &&& forall|i: int| 0 <= i < w.len() ==> #[trigger] e.dependencies[i] == (w[i].1 is None, w[i].0, w[i].2)
            }
            &&& match written_value_token(tokens, PropKind::Operations) {
                Some(Token::Group { stream, .. }) => {
                    let l = crate::extension_macro::list_elements(stream@);
                    &&& l.len() == 0 ==> e.init is None
                    &&& l.len() > 0 ==> (e.init matches Some(ops) && ops.len() == l.len() && forall|i: int|
                        0 <= i < l.len() ==> (#[trigger] ops[i]).0 == l[i] && ops[i].1
                            == crate::extension_macro::constant_path(l[i]))
                },
                Some(_) => false,
                None => e.init is None,
            }
        }),
{
    law_parse_accepts_properties(tokens);
    lemma_read_properties(extension_model_empty(), tokens);
    assert(given(extension_model_empty()) =~= Set::<PropKind>::empty());
    lemma_parse_run_from(tokens, tokens.len() as int);
    lemma_groups_key(extension_model_empty(), tokens);
    let d = parse_spec(tokens)->Ok_0;
    let e = expansion_spec(d);
    let g = written_value_token(tokens, PropKind::Dependencies)->Some_0;
    crate::extension_macro::law_declarations_are_as_written(g);
    match written_value_token(tokens, PropKind::Operations) {
        Some(o) => {
            crate::extension_macro::law_operations_are_as_written(o);
        },
        None => {
            assert(d.ops is None);
        },
    }
}

} // verus!
