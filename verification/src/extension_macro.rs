//! The grammar of the `extension!` macro.
//!
//! An extension describes itself with
//! `name = "...", version = "...", dependencies = { a = "^1", b = optional ">= 0" }, ops = [path::to::op, ...]`,
//! every property optional and given at most once. This module reads that
//! description from its tokens and says what the macro expands to.

use vstd::prelude::*;
use crate::tokens::{
    lemma_tokens_view_push, tokens_view, TokenView,
    lit_str_value, quoted_char_message, spec_lit_str, spec_to_uppercase, to_uppercase, Delimiter,
    Spacing, SyntaxError, Token, CALL_SITE,
};
use crate::repository::{lemma_names_push, names};
use crate::version::{check_version_req, version_req_parse_error};

verus! {

/// An identifier and where it stands.
pub struct IdentToken {
    pub name: String,
    pub span: u64,
}

impl IdentToken {
    pub open spec fn view(&self) -> (Seq<char>, u64) {
        (self.name@, self.span)
    }

    pub fn duplicate(&self) -> (r: IdentToken)
        ensures
            r == *self,
    {
        IdentToken { name: self.name.clone(), span: self.span }
    }
}

/// A string literal: its value, the text it was written with, and where it
/// stands.
pub struct LitStr {
    pub value: String,
    pub text: String,
    pub span: u64,
}

impl LitStr {
    pub open spec fn view(&self) -> (Seq<char>, Seq<char>, u64) {
        (self.value@, self.text@, self.span)
    }

    pub fn duplicate(&self) -> (r: LitStr)
        ensures
            r == *self,
    {
        LitStr { value: self.value.clone(), text: self.text.clone(), span: self.span }
    }
}

/// A dependency as the macro declares it: its name, the `optional` marker
/// if any, and the version requirement.
pub struct DependencyDef {
    pub name_ident: IdentToken,
    pub optional_ident: Option<IdentToken>,
    pub version_req_literal: LitStr,
}

/// The view of an optional identifier.
pub open spec fn ident_option_view(i: Option<IdentToken>) -> Option<(Seq<char>, u64)> {
    match i {
        Some(t) => Some(t.view()),
        None => None,
    }
}

impl DependencyDef {
    pub open spec fn view(&self) -> ((Seq<char>, u64), Option<(Seq<char>, u64)>, (Seq<char>, Seq<char>, u64)) {
        (self.name_ident.view(), ident_option_view(self.optional_ident), self.version_req_literal.view())
    }

    pub fn duplicate(&self) -> (r: DependencyDef)
        ensures
            r.view() == self.view(),
    {
        DependencyDef {
            name_ident: self.name_ident.duplicate(),
            optional_ident: match &self.optional_ident {
                Some(i) => Some(i.duplicate()),
                None => None,
            },
            version_req_literal: self.version_req_literal.duplicate(),
        }
    }
}

/// The views of a list of dependency declarations.
pub open spec fn dependency_defs_view(defs: Seq<DependencyDef>) -> Seq<((Seq<char>, u64), Option<(Seq<char>, u64)>, (Seq<char>, Seq<char>, u64))> {
    defs.map_values(dependency_def_view())
}

/// The view of a dependency declaration, as a function.
pub open spec fn dependency_def_view() -> spec_fn(DependencyDef) -> ((Seq<char>, u64), Option<(Seq<char>, u64)>, (Seq<char>, Seq<char>, u64)) {
    |d: DependencyDef| d.view()
}

/// How far the dependency declarations have been read.
pub struct DependenciesModel {
    /// The declarations read so far.
    pub definitions: Seq<((Seq<char>, u64), Option<(Seq<char>, u64)>, (Seq<char>, Seq<char>, u64))>,
    /// The names declared so far.
    pub seen: Seq<Seq<char>>,
    /// The name of the declaration being read, once read.
    pub property: Option<(Seq<char>, u64)>,
    /// Whether its `=` has been read.
    pub eq: bool,
    /// Its `optional` marker, once read.
    pub optional: Option<(Seq<char>, u64)>,
    /// Whether a declaration has just been completed and a `,` is due.
    pub version: bool,
}

/// Nothing read yet.
pub open spec fn dependencies_start() -> DependenciesModel {
    DependenciesModel {
        definitions: Seq::empty(),
        seen: Seq::empty(),
        property: None,
        eq: false,
        optional: None,
        version: false,
    }
}

/// Reading one token of the dependency declarations.
pub open spec fn dependencies_step(m: DependenciesModel, t: Token) -> Result<DependenciesModel, (u64, Seq<char>)> {
    if m.property is None && !m.version {
        match t {
            Token::Ident { name, span } => if m.seen.contains(name@) {
                Err((span, "dependency already declared"@))
            } else {
                Ok(DependenciesModel { seen: m.seen.push(name@), property: Some((name@, span)), ..m })
            },
            _ => Err((t.spec_span(), "expected dependency name"@)),
        }
    } else if m.property is Some && !m.eq {
        if t.is_punct('=') {
            Ok(DependenciesModel { eq: true, ..m })
        } else {
            Err((t.spec_span(), "expected punctuation '='"@))
        }
    } else if m.eq {
        match t {
            Token::Ident { name, span } => if !(m.eq && !m.version) {
                Err((span, "unexpected identifier, expected dependency version"@))
            } else if name@ != "optional"@ {
                Err((span, "unexpected identifier, expected identifier 'optional'"@))
            } else {
                Ok(DependenciesModel { optional: Some((name@, span)), ..m })
            },
            Token::Literal { text, span } => match spec_lit_str(text@) {
                Err(message) => Err(
                    (span, "expected a literal string with dependency version: "@ + message),
                ),
                Ok(value) => match version_req_parse_error(value) {
                    Some(message) => Err((span, "Invalid version matcher: "@ + message)),
                    None => Ok(
                        DependenciesModel {
                            definitions: m.definitions.push(
                                (m.property->0, m.optional, (value, text@, span)),
                            ),
                            property: None,
                            eq: false,
                            optional: None,
                            version: true,
                            ..m
                        },
                    ),
                },
            },
            _ => if m.eq && !m.version {
                Err(
                    (
                        t.spec_span(),
                        "unexpected token, expected identifier 'optional' or dependency version"@,
                    ),
                )
            } else {
                Err((t.spec_span(), "unexpected token, expected dependency version"@))
            },
        }
    } else if m.version {
        match t {
            Token::Punct { ch, span, .. } => if ch != ',' {
                Err((span, "unexpected punctuation '"@ + seq![ch] + "', expected punctuation ','"@))
            } else {
                Ok(DependenciesModel { version: false, ..m })
            },
            _ => Err((t.spec_span(), "unexpected token, expected punctuation ','"@)),
        }
    } else {
        Ok(m)
    }
}

/// Reading the first `n` tokens of the declarations.
pub open spec fn dependencies_run(m: DependenciesModel, tokens: Seq<Token>, n: int) -> Result<DependenciesModel, (u64, Seq<char>)>
    decreases n,
{
    if n <= 0 {
        Ok(m)
    } else {
        match dependencies_run(m, tokens, n - 1) {
            Err(e) => Err(e),
            Ok(prev) => dependencies_step(prev, tokens[n - 1]),
        }
    }
}

/// Reading the value of the `dependencies` property, a braced group.
pub open spec fn dependencies_handle(m: DependenciesModel, t: Token) -> Result<DependenciesModel, (u64, Seq<char>)> {
    match t {
        Token::Group { delimiter, stream, span } => if delimiter != Delimiter::Brace {
            Err((span, "unexpected punctuation, expected punctuation '{'"@))
        } else {
            match dependencies_run(m, stream@, stream@.len() as int) {
                Err(e) => Err(e),
                Ok(end) => dependencies_finish(end, stream@),
            }
        },
        _ => Err((t.spec_span(), "unexpected token, expected group"@)),
    }
}

/// Finishing the declarations: one that stops after its name, its `=` or
/// its `optional` is incomplete, and the end of input is reported at the
/// last token.
pub open spec fn dependencies_finish(m: DependenciesModel, tokens: Seq<Token>) -> Result<DependenciesModel, (u64, Seq<char>)> {
    if m.property is Some && tokens.len() > 0 {
        Err((tokens.last().spec_span(), "unexpected end of input"@))
    } else {
        Ok(m)
    }
}

/// The reader's model once it has read as far as the first `n` tokens
/// allow: after all of them, or just before the first one it refuses.
pub open spec fn dependencies_reach(m: DependenciesModel, tokens: Seq<Token>, n: int) -> DependenciesModel
    decreases n,
{
    if n <= 0 {
        m
    } else {
        match dependencies_run(m, tokens, n - 1) {
            Err(_) => dependencies_reach(m, tokens, n - 1),
            Ok(prev) => match dependencies_step(prev, tokens[n - 1]) {
                Ok(next) => next,
                Err(_) => prev,
            },
        }
    }
}

/// The declarations the reader holds after refusing `t`: those read
/// before the token it refused.
pub open spec fn dependencies_kept(m: DependenciesModel, t: Token) -> Seq<((Seq<char>, u64), Option<(Seq<char>, u64)>, (Seq<char>, Seq<char>, u64))> {
    match t {
        Token::Group { delimiter, stream, .. } => if delimiter == Delimiter::Brace {
            dependencies_reach(m, stream@, stream@.len() as int).definitions
        } else {
            m.definitions
        },
        _ => m.definitions,
    }
}

proof fn lemma_dependencies_reach_run(m: DependenciesModel, tokens: Seq<Token>, n: int)
    requires
        dependencies_run(m, tokens, n) is Ok,
    ensures
        dependencies_reach(m, tokens, n) == dependencies_run(m, tokens, n)->Ok_0,
{
}

proof fn lemma_dependencies_reach_error(m: DependenciesModel, tokens: Seq<Token>, i: int, n: int)
    requires
        0 <= i < n,
        dependencies_run(m, tokens, i) is Ok,
        dependencies_step(dependencies_run(m, tokens, i)->Ok_0, tokens[i]) is Err,
    ensures
        dependencies_reach(m, tokens, n) == dependencies_run(m, tokens, i)->Ok_0,
    decreases n - i,
{
    if n > i + 1 {
        lemma_dependencies_reach_error(m, tokens, i, n - 1);
        lemma_dependencies_error_persists(m, tokens, i + 1, n - 1);
    }
}

/// The reader of the `dependencies` property.
pub struct DependenciesState {
    definitions: Vec<DependencyDef>,
    seen: Vec<String>,
    property: Option<IdentToken>,
    eq: Option<u64>,
    optional: Option<IdentToken>,
    version: Option<LitStr>,
}

impl DependenciesState {
    pub closed spec fn view(&self) -> DependenciesModel {
        DependenciesModel {
            definitions: dependency_defs_view(self.definitions@),
            seen: names(self.seen@),
            property: ident_option_view(self.property),
            eq: self.eq is Some,
            optional: ident_option_view(self.optional),
            version: self.version is Some,
        }
    }

    /// A declaration's `=` is read only after its name.
    pub closed spec fn inv(&self) -> bool {
        self.eq is Some ==> self.property is Some
    }

    /// The declarations read.
    pub closed spec fn definitions(&self) -> Seq<DependencyDef> {
        self.definitions@
    }

    pub fn new() -> (s: Self)
        ensures
            s.inv(),
            s.view() == dependencies_start(),
    {
        let s = DependenciesState {
            definitions: Vec::new(),
            seen: Vec::new(),
            property: None,
            eq: None,
            optional: None,
            version: None,
        };
        proof {
            assert(s.view().definitions =~= Seq::empty());
            assert(s.view().seen =~= Seq::<Seq<char>>::empty());
        }
        s
    }

    pub fn expects_property(&self) -> (b: bool)
        ensures
            b == (self.view().property is None && !self.view().version),
    {
        self.property.is_none() && self.version.is_none()
    }

    pub fn expects_equal(&self) -> (b: bool)
        ensures
            b == (self.view().property is Some && !self.view().eq),
    {
        self.property.is_some() && self.eq.is_none()
    }

    pub fn expects_optional(&self) -> (b: bool)
        ensures
            b == (self.view().eq && !self.view().version),
    {
        self.eq.is_some() && self.version.is_none()
    }

    pub fn expects_version(&self) -> (b: bool)
        ensures
            b == self.view().eq,
    {
        self.eq.is_some()
    }

    pub fn expects_separator(&self) -> (b: bool)
        ensures
            b == self.view().version,
    {
        self.version.is_some()
    }

    /// Takes the declarations read, leaving none.
    pub fn take_definitions(&mut self) -> (defs: Vec<DependencyDef>)
        ensures
            dependency_defs_view(defs@) == old(self).view().definitions,
    {
        let mut defs = Vec::new();
        std::mem::swap(&mut defs, &mut self.definitions);
        defs
    }

    fn seen_contains(&self, name: &String) -> (b: bool)
        ensures
            b == self.view().seen.contains(name@),
    {
        let n = self.seen.len();
        let mut i: usize = 0;
        while i < n
            invariant
                n == self.seen@.len(),
                i <= n,
                forall|j: int| 0 <= j < i ==> self.seen@[j]@ != name@,
            decreases n - i,
        {
            if self.seen[i] == *name {
                assert(self.view().seen[i as int] == name@);
                return true;
            }
            i = i + 1;
        }
        proof {
            if self.view().seen.contains(name@) {
                let j = choose|j: int| 0 <= j < self.view().seen.len() && self.view().seen[j] == name@;
                assert(self.seen@[j]@ == name@);
            }
        }
        false
    }

    /// Reads one token of the declarations.
    fn step(&mut self, token: &Token) -> (r: Result<(), SyntaxError>)
        requires
            old(self).inv(),
        ensures
            final(self).inv(),
            match dependencies_step(old(self).view(), *token) {
                Ok(m) => r is Ok && final(self).view() == m,
                Err(e) => r matches Err(err) && err.view() == e
                    && final(self).view().definitions == old(self).view().definitions,
            },
    {
        let ghost before = self.view();
        if self.expects_property() {
            match token {
                Token::Ident { name, span } => {
                    if self.seen_contains(name) {
                        return Err(
                            SyntaxError {
                                span: *span,
                                message: String::from_str("dependency already declared"),
                            },
                        );
                    }
                    let ghost seen_before = self.seen@;
                    self.seen.push(name.clone());
                    self.property = Some(IdentToken { name: name.clone(), span: *span });
                    proof {
                        lemma_names_push(seen_before, *name);
                        assert(self.view().seen =~= before.seen.push(name@));
                        assert(self.view() == DependenciesModel {
                            seen: before.seen.push(name@),
                            property: Some((name@, *span)),
                            ..before
                        });
                    }
                    return Ok(());
                },
                _ => {
                    return Err(
                        SyntaxError {
                            span: token.span(),
                            message: String::from_str("expected dependency name"),
                        },
                    );
                },
            }
        }
        if self.expects_equal() {
            match token {
                Token::Punct { ch, span, .. } => {
                    if *ch != '=' {
                        return Err(
                            SyntaxError {
                                span: *span,
                                message: String::from_str("expected punctuation '='"),
                            },
                        );
                    }
                    self.eq = Some(*span);
                    return Ok(());
                },
                _ => {
                    return Err(
                        SyntaxError {
                            span: token.span(),
                            message: String::from_str("expected punctuation '='"),
                        },
                    );
                },
            }
        }
        if self.expects_version() {
            match token {
                Token::Ident { name, span } => {
                    if !self.expects_optional() {
                        return Err(
                            SyntaxError {
                                span: *span,
                                message: String::from_str(
                                    "unexpected identifier, expected dependency version",
                                ),
                            },
                        );
                    }
                    let optional_word = String::from_str("optional");
                    if *name != optional_word {
                        return Err(
                            SyntaxError {
                                span: *span,
                                message: String::from_str(
                                    "unexpected identifier, expected identifier 'optional'",
                                ),
                            },
                        );
                    }
                    self.optional = Some(IdentToken { name: name.clone(), span: *span });
                    return Ok(());
                },
                Token::Literal { text, span } => {
                    let value = match lit_str_value(text.as_str()) {
                        Err(message) => {
                            let mut m = String::from_str(
                                "expected a literal string with dependency version: ",
                            );
                            m.append(message.as_str());
                            return Err(SyntaxError { span: *span, message: m });
                        },
                        Ok(value) => value,
                    };
                    match check_version_req(value.as_str()) {
                        Err(message) => {
                            let mut m = String::from_str("Invalid version matcher: ");
                            m.append(message.as_str());
                            return Err(SyntaxError { span: *span, message: m });
                        },
                        Ok(()) => {},
                    }
                    let litstr = LitStr { value, text: text.clone(), span: *span };
                    let name_ident = match self.property.take() {
                        Some(p) => p,
                        None => IdentToken { name: String::new(), span: CALL_SITE },
                    };
                    let optional_ident = self.optional.take();
                    let ghost defs_before = self.definitions@;
                    self.definitions.push(
                        DependencyDef {
                            name_ident,
                            optional_ident,
                            version_req_literal: litstr.duplicate(),
                        },
                    );
                    self.version = Some(litstr);
                    self.property = None;
                    self.eq = None;
                    self.optional = None;
                    proof {
                        defs_before.lemma_push_map_commute(dependency_def_view(), self.definitions@.last());
                        assert(self.definitions@ == defs_before.push(self.definitions@.last()));
                        assert(self.view().definitions =~= before.definitions.push(
                            (before.property->0, before.optional, (value@, text@, *span)),
                        ));
                    }
                    return Ok(());
                },
                _ => {
                    if self.expects_optional() {
                        return Err(
                            SyntaxError {
                                span: token.span(),
                                message: String::from_str(
                                    "unexpected token, expected identifier 'optional' or dependency version",
                                ),
                            },
                        );
                    } else {
                        return Err(
                            SyntaxError {
                                span: token.span(),
                                message: String::from_str(
                                    "unexpected token, expected dependency version",
                                ),
                            },
                        );
                    }
                },
            }
        }
        if self.expects_separator() {
            match token {
                Token::Punct { ch, span, .. } => {
                    if *ch != ',' {
                        return Err(
                            SyntaxError {
                                span: *span,
                                message: quoted_char_message(
                                    "unexpected punctuation '",
                                    *ch,
                                    "', expected punctuation ','",
                                ),
                            },
                        );
                    }
                    self.version = None;
                    return Ok(());
                },
                _ => {
                    return Err(
                        SyntaxError {
                            span: token.span(),
                            message: String::from_str("unexpected token, expected punctuation ','"),
                        },
                    );
                },
            }
        }
        Ok(())
    }

    /// Reads the value of the `dependencies` property: a braced group of
    /// declarations `name = "requirement"` or `name = optional
    /// "requirement"`, separated by commas. A name is declared once; the
    /// requirement must be a string literal that semver accepts; a
    /// declaration still incomplete when the group ends is reported at its
    /// last token. After an error the reader keeps the declarations read
    /// before the token it refused.
    pub fn handle_token(&mut self, token: &Token) -> (r: Result<(), SyntaxError>)
        requires
            old(self).inv(),
        ensures
            final(self).inv(),
            match dependencies_handle(old(self).view(), *token) {
                Ok(m) => r is Ok && final(self).view() == m,
                Err(e) => r matches Err(err) && err.view() == e
                    && final(self).view().definitions == dependencies_kept(old(self).view(), *token),
            },
    {
        match token {
            Token::Group { delimiter, stream, span } => {
                if *delimiter != Delimiter::Brace {
                    return Err(
                        SyntaxError {
                            span: *span,
                            message: String::from_str(
                                "unexpected punctuation, expected punctuation '{'",
                            ),
                        },
                    );
                }
                let ghost start = self.view();
                let n = stream.len();
                let mut i: usize = 0;
                while i < n
                    invariant
                        n == stream@.len(),
                        i <= n,
                        self.inv(),
                        start == old(self).view(),
                        dependencies_handle(start, *token) == (match dependencies_run(start, stream@, n as int) {
                            Err(e) => Err(e),
                            Ok(end) => dependencies_finish(end, stream@),
                        }),
                        dependencies_kept(start, *token) == dependencies_reach(start, stream@, n as int).definitions,
                        dependencies_run(start, stream@, i as int)
                            == Ok::<DependenciesModel, (u64, Seq<char>)>(self.view()),
                    decreases n - i,
                {
                    let ghost before = self.view();
                    match self.step(&stream[i]) {
                        Ok(()) => {},
                        Err(e) => {
                            proof {
                                lemma_dependencies_error_persists(start, stream@, i as int + 1, n as int);
                                lemma_dependencies_reach_error(start, stream@, i as int, n as int);
                            }
                            return Err(e);
                        },
                    }
                    i = i + 1;
                }
                proof {
                    lemma_dependencies_reach_run(start, stream@, n as int);
                }
                if self.property.is_some() && n > 0 {
                    return Err(
                        SyntaxError {
                            span: stream[n - 1].span(),
                            message: String::from_str("unexpected end of input"),
                        },
                    );
                }
                Ok(())
            },
            _ => Err(
                SyntaxError {
                    span: token.span(),
                    message: String::from_str("unexpected token, expected group"),
                },
            ),
        }
    }
}

proof fn lemma_dependencies_error_persists(m: DependenciesModel, tokens: Seq<Token>, i: int, n: int)
    requires
        0 <= i <= n,
        dependencies_run(m, tokens, i) is Err,
    ensures
        dependencies_run(m, tokens, n) == dependencies_run(m, tokens, i),
    decreases n - i,
{
    if i < n {
        lemma_dependencies_error_persists(m, tokens, i + 1, n);
    }
}

/// An operation listed in `ops`: the path of its function, and the path of
/// its constant, which is the same with the last segment in upper case.
pub struct OperationDef {
    pub function_handle: Vec<Token>,
    pub definition_handle: Vec<Token>,
}

impl OperationDef {
    pub open spec fn view(&self) -> (Seq<TokenView>, Seq<TokenView>) {
        (tokens_view(self.function_handle@), tokens_view(self.definition_handle@))
    }
}

/// The view of an operation, as a function.
pub open spec fn operation_def_view() -> spec_fn(OperationDef) -> (Seq<TokenView>, Seq<TokenView>) {
    |d: OperationDef| d.view()
}

/// The views of a list of operations.
pub open spec fn operation_defs_view(defs: Seq<OperationDef>) -> Seq<(Seq<TokenView>, Seq<TokenView>)> {
    defs.map_values(operation_def_view())
}

/// How far the list of operations has been read.
pub struct OperationsModel {
    /// The operations read so far.
    pub definitions: Seq<(Seq<TokenView>, Seq<TokenView>)>,
    /// The path of the function being read, so far.
    pub fn_ref: Seq<TokenView>,
    /// The path of the constant being read, so far.
    pub def_ref: Seq<TokenView>,
    /// The segment just read.
    pub ident: Option<(Seq<char>, u64)>,
    /// The first `:` of a `::`, once read.
    pub colon1: Option<(char, Spacing, u64)>,
    /// The second `:` of a `::`, once read.
    pub colon2: Option<(char, Spacing, u64)>,
}

/// Nothing read yet.
pub open spec fn operations_start() -> OperationsModel {
    OperationsModel {
        definitions: Seq::empty(),
        fn_ref: Seq::empty(),
        def_ref: Seq::empty(),
        ident: None,
        colon1: None,
        colon2: None,
    }
}

/// The view of a punctuation character.
pub open spec fn punct_view(p: (char, Spacing, u64)) -> TokenView {
    TokenView::Punct(p.0, p.1, p.2)
}

/// Completing an operation with the segment just read: the function's path
/// ends with it, the constant's path with it in upper case, at the call
/// site.
pub open spec fn operations_commit(m: OperationsModel) -> OperationsModel {
    let ident = m.ident->0;
    let fn_ref = m.fn_ref.push(TokenView::Ident(ident.0, ident.1));
    let def_ref = m.def_ref.push(TokenView::Ident(spec_to_uppercase(ident.0), CALL_SITE));
    OperationsModel {
        definitions: m.definitions.push((fn_ref, def_ref)),
        fn_ref: Seq::empty(),
        def_ref: Seq::empty(),
        ident: None,
        ..m
    }
}

/// Reading one token of the list of operations.
pub open spec fn operations_step(m: OperationsModel, t: Token) -> Result<OperationsModel, (u64, Seq<char>)> {
    if (m.ident is None && m.colon1 is None) || m.colon2 is Some {
        let m1 = if m.colon2 is Some {
            OperationsModel {
                fn_ref: m.fn_ref.push(punct_view(m.colon1->0)).push(punct_view(m.colon2->0)),
                def_ref: m.def_ref.push(punct_view(m.colon1->0)).push(punct_view(m.colon2->0)),
                colon1: None,
                colon2: None,
                ..m
            }
        } else {
            m
        };
        match t {
            Token::Ident { name, span } => Ok(OperationsModel { ident: Some((name@, span)), ..m1 }),
            _ => Err((t.spec_span(), "unexpected token, expected identifier"@)),
        }
    } else if m.ident is Some && m.colon1 is None {
        match t {
            Token::Punct { ch, spacing, span } => if ch == ',' {
                Ok(operations_commit(m))
            } else if ch == ':' {
                let (iname, ispan) = m.ident->0;
                let ident = TokenView::Ident(iname, ispan);
                Ok(
                    OperationsModel {
                        colon1: Some((ch, spacing, span)),
                        fn_ref: m.fn_ref.push(ident),
                        def_ref: m.def_ref.push(ident),
                        ident: None,
                        ..m
                    },
                )
            } else {
                Err((span, "unexpected punctuation '"@ + seq![ch] + "', expected '::' or ','"@))
            },
            _ => Err((t.spec_span(), "unexpected token, expected punctuation '::' or ','"@)),
        }
    } else if m.colon1 is Some {
        match t {
            Token::Punct { ch, spacing, span } => if ch == ':' {
                Ok(OperationsModel { colon2: Some((ch, spacing, span)), ..m })
            } else {
                Err((span, "unexpected punctuation '"@ + seq![ch] + "', expected '::'"@))
            },
            _ => Err((t.spec_span(), "unexpected token, expected punctuation '::'"@)),
        }
    } else {
        Ok(m)
    }
}

/// The span of a recorded punctuation.
pub open spec fn punct_span(p: (char, Spacing, u64)) -> u64 {
    let (_c, _s, span) = p;
    span
}

/// Reading the first `n` tokens of the list.
pub open spec fn operations_run(m: OperationsModel, tokens: Seq<Token>, n: int) -> Result<OperationsModel, (u64, Seq<char>)>
    decreases n,
{
    if n <= 0 {
        Ok(m)
    } else {
        match operations_run(m, tokens, n - 1) {
            Err(e) => Err(e),
            Ok(prev) => operations_step(prev, tokens[n - 1]),
        }
    }
}

/// Finishing the list: a `::` may not end it, and a last segment completes
/// the last operation.
pub open spec fn operations_finish(m: OperationsModel) -> Result<OperationsModel, (u64, Seq<char>)> {
    if m.colon2 is Some {
        Err((punct_span(m.colon2->0), "unexpected end of input"@))
    } else if m.colon1 is Some {
        Err((punct_span(m.colon1->0), "unexpected end of input"@))
    } else if m.ident is Some {
        Ok(operations_commit(m))
    } else {
        Ok(m)
    }
}

/// The reader's model once it has read as far as the first `n` tokens of
/// the list allow: after all of them, or just before the first one it
/// refuses.
pub open spec fn operations_reach(m: OperationsModel, tokens: Seq<Token>, n: int) -> OperationsModel
    decreases n,
{
    if n <= 0 {
        m
    } else {
        match operations_run(m, tokens, n - 1) {
            Err(_) => operations_reach(m, tokens, n - 1),
            Ok(prev) => match operations_step(prev, tokens[n - 1]) {
                Ok(next) => next,
                Err(_) => prev,
            },
        }
    }
}

/// The operations the reader holds after refusing `t`: those read before
/// the token it refused, or before the end of the list where it ends too
/// early.
pub open spec fn operations_kept(m: OperationsModel, t: Token) -> Seq<(Seq<TokenView>, Seq<TokenView>)> {
    match t {
        Token::Group { delimiter, stream, .. } => if delimiter == Delimiter::Bracket {
            operations_reach(m, stream@, stream@.len() as int).definitions
        } else {
            m.definitions
        },
        _ => m.definitions,
    }
}

proof fn lemma_operations_reach_run(m: OperationsModel, tokens: Seq<Token>, n: int)
    requires
        operations_run(m, tokens, n) is Ok,
    ensures
        operations_reach(m, tokens, n) == operations_run(m, tokens, n)->Ok_0,
{
}

proof fn lemma_operations_reach_error(m: OperationsModel, tokens: Seq<Token>, i: int, n: int)
    requires
        0 <= i < n,
        operations_run(m, tokens, i) is Ok,
        operations_step(operations_run(m, tokens, i)->Ok_0, tokens[i]) is Err,
    ensures
        operations_reach(m, tokens, n) == operations_run(m, tokens, i)->Ok_0,
    decreases n - i,
{
    if n > i + 1 {
        lemma_operations_reach_error(m, tokens, i, n - 1);
        lemma_operations_error_persists(m, tokens, i + 1, n - 1);
    }
}

/// Reading the value of the `ops` property, a bracketed group.
pub open spec fn operations_handle(m: OperationsModel, t: Token) -> Result<OperationsModel, (u64, Seq<char>)> {
    match t {
        Token::Group { delimiter, stream, span } => if delimiter != Delimiter::Bracket {
            Err((span, "unexpected punctuation, expected punctuation '['"@))
        } else {
            match operations_run(m, stream@, stream@.len() as int) {
                Err(e) => Err(e),
                Ok(end) => operations_finish(end),
            }
        },
        _ => Err((t.spec_span(), "unexpected token, expected group"@)),
    }
}

/// A punctuation character read, kept to be written back.
pub struct PunctToken {
    pub ch: char,
    pub spacing: Spacing,
    pub span: u64,
}

/// The view of an optional punctuation character.
pub open spec fn punct_option_view(p: Option<PunctToken>) -> Option<(char, Spacing, u64)> {
    match p {
        Some(t) => Some((t.ch, t.spacing, t.span)),
        None => None,
    }
}

/// The reader of the `ops` property.
pub struct OperationsState {
    definitions: Vec<OperationDef>,
    fn_ref: Vec<Token>,
    def_ref: Vec<Token>,
    ident: Option<IdentToken>,
    colon1: Option<PunctToken>,
    colon2: Option<PunctToken>,
}

impl OperationsState {
    pub closed spec fn view(&self) -> OperationsModel {
        OperationsModel {
            definitions: operation_defs_view(self.definitions@),
            fn_ref: tokens_view(self.fn_ref@),
            def_ref: tokens_view(self.def_ref@),
            ident: ident_option_view(self.ident),
            colon1: punct_option_view(self.colon1),
            colon2: punct_option_view(self.colon2),
        }
    }

    /// The second `:` of a `::` is read only after the first.
    pub closed spec fn inv(&self) -> bool {
        self.colon2 is Some ==> self.colon1 is Some
    }

    pub fn new() -> (s: Self)
        ensures
            s.inv(),
            s.view() == operations_start(),
    {
        let s = OperationsState {
            definitions: Vec::new(),
            fn_ref: Vec::new(),
            def_ref: Vec::new(),
            ident: None,
            colon1: None,
            colon2: None,
        };
        proof {
            assert(s.view().definitions =~= Seq::empty());
            assert(s.view().fn_ref =~= Seq::empty());
            assert(s.view().def_ref =~= Seq::empty());
        }
        s
    }

    pub fn expects_ident(&self) -> (b: bool)
        ensures
            b == ((self.view().ident is None && self.view().colon1 is None) || self.view().colon2 is Some),
    {
        (self.ident.is_none() && !self.colon1.is_some()) || self.colon2.is_some()
    }

    pub fn expects_colon1(&self) -> (b: bool)
        ensures
            b == (self.view().ident is Some && self.view().colon1 is None),
    {
        self.ident.is_some() && self.colon1.is_none()
    }

    pub fn expects_colon2(&self) -> (b: bool)
        ensures
            b == (self.view().colon1 is Some),
    {
        self.colon1.is_some()
    }

    /// Takes the operations read, leaving none.
    pub fn take_definitions(&mut self) -> (defs: Vec<OperationDef>)
        ensures
            operation_defs_view(defs@) == old(self).view().definitions,
    {
        let mut defs = Vec::new();
        std::mem::swap(&mut defs, &mut self.definitions);
        defs
    }

    /// Completes an operation with the segment just read.
    pub fn commit(&mut self)
        requires
            old(self).inv(),
            old(self).view().ident is Some,
        ensures
            final(self).inv(),
            final(self).view() == operations_commit(old(self).view()),
    {
        let ghost before = self.view();
        let ident1 = match self.ident.take() {
            Some(i) => i,
            None => IdentToken { name: String::new(), span: CALL_SITE },
        };
        let upper = to_uppercase(ident1.name.as_str());
        let ghost fn_before = self.fn_ref@;
        let ghost def_before = self.def_ref@;
        let fn_token = Token::Ident { name: ident1.name, span: ident1.span };
        let def_token = Token::Ident { name: upper, span: CALL_SITE };
        proof {
            lemma_tokens_view_push(fn_before, fn_token);
            lemma_tokens_view_push(def_before, def_token);
        }
        self.fn_ref.push(fn_token);
        self.def_ref.push(def_token);
        let mut fn_ref = Vec::new();
        let mut def_ref = Vec::new();
        std::mem::swap(&mut fn_ref, &mut self.fn_ref);
        std::mem::swap(&mut def_ref, &mut self.def_ref);
        let ghost defs_before = self.definitions@;
        let def = OperationDef { function_handle: fn_ref, definition_handle: def_ref };
        proof {
            defs_before.lemma_push_map_commute(operation_def_view(), def);
        }
        self.definitions.push(def);
        proof {
            assert(self.view().fn_ref =~= Seq::empty());
            assert(self.view().def_ref =~= Seq::empty());
            assert(self.view() == operations_commit(before));
        }
    }

    /// Reads one token of the list.
    fn step(&mut self, token: &Token) -> (r: Result<(), SyntaxError>)
        requires
            old(self).inv(),
        ensures
            final(self).inv(),
            match operations_step(old(self).view(), *token) {
                Ok(m) => r is Ok && final(self).view() == m,
                Err(e) => r matches Err(err) && err.view() == e
                    && final(self).view().definitions == old(self).view().definitions,
            },
    {
        let ghost before = self.view();
        if self.expects_ident() {
            if self.colon2.is_some() {
                let colon1 = match self.colon1.take() {
                    Some(p) => p,
                    None => PunctToken { ch: ':', spacing: Spacing::Alone, span: CALL_SITE },
                };
                let colon2 = match self.colon2.take() {
                    Some(p) => p,
                    None => PunctToken { ch: ':', spacing: Spacing::Alone, span: CALL_SITE },
                };
                let ghost fn_before = self.fn_ref@;
                let ghost def_before = self.def_ref@;
                let t1 = Token::Punct { ch: colon1.ch, spacing: colon1.spacing, span: colon1.span };
                let t2 = Token::Punct { ch: colon2.ch, spacing: colon2.spacing, span: colon2.span };
                let t3 = Token::Punct { ch: colon1.ch, spacing: colon1.spacing, span: colon1.span };
                let t4 = Token::Punct { ch: colon2.ch, spacing: colon2.spacing, span: colon2.span };
                proof {
                    lemma_tokens_view_push(fn_before, t1);
                    lemma_tokens_view_push(fn_before.push(t1), t2);
                    lemma_tokens_view_push(def_before, t3);
                    lemma_tokens_view_push(def_before.push(t3), t4);
                }
                self.fn_ref.push(t1);
                self.fn_ref.push(t2);
                self.def_ref.push(t3);
                self.def_ref.push(t4);
            }
            match token {
                Token::Ident { name, span } => {
                    self.ident = Some(IdentToken { name: name.clone(), span: *span });
                    return Ok(());
                },
                _ => {
                    return Err(
                        SyntaxError {
                            span: token.span(),
                            message: String::from_str("unexpected token, expected identifier"),
                        },
                    );
                },
            }
        }
        if self.expects_colon1() {
            match token {
                Token::Punct { ch, spacing, span } => {
                    if *ch == ',' {
                        self.commit();
                        return Ok(());
                    } else if *ch == ':' {
                        self.colon1 = Some(PunctToken { ch: *ch, spacing: *spacing, span: *span });
                        let ident = match self.ident.take() {
                            Some(i) => i,
                            None => IdentToken { name: String::new(), span: CALL_SITE },
                        };
                        let ghost fn_before = self.fn_ref@;
                        let ghost def_before = self.def_ref@;
                        let t1 = Token::Ident { name: ident.name.clone(), span: ident.span };
                        let t2 = Token::Ident { name: ident.name, span: ident.span };
                        proof {
                            lemma_tokens_view_push(fn_before, t1);
                            lemma_tokens_view_push(def_before, t2);
                        }
                        self.fn_ref.push(t1);
                        self.def_ref.push(t2);
                        return Ok(());
                    } else {
                        return Err(
                            SyntaxError {
                                span: *span,
                                message: quoted_char_message(
                                    "unexpected punctuation '",
                                    *ch,
                                    "', expected '::' or ','",
                                ),
                            },
                        );
                    }
                },
                _ => {
                    return Err(
                        SyntaxError {
                            span: token.span(),
                            message: String::from_str(
                                "unexpected token, expected punctuation '::' or ','",
                            ),
                        },
                    );
                },
            }
        }
        if self.expects_colon2() {
            match token {
                Token::Punct { ch, spacing, span } => {
                    if *ch == ':' {
                        self.colon2 = Some(PunctToken { ch: *ch, spacing: *spacing, span: *span });
                        return Ok(());
                    } else {
                        return Err(
                            SyntaxError {
                                span: *span,
                                message: quoted_char_message(
                                    "unexpected punctuation '",
                                    *ch,
                                    "', expected '::'",
                                ),
                            },
                        );
                    }
                },
                _ => {
                    return Err(
                        SyntaxError {
                            span: token.span(),
                            message: String::from_str("unexpected token, expected punctuation '::'"),
                        },
                    );
                },
            }
        }
        Ok(())
    }

    /// Reads the value of the `ops` property: a bracketed, comma-separated
    /// list of paths to operation functions. After an error the reader keeps
    /// the operations read before the token it refused.
    pub fn handle_token(&mut self, token: &Token) -> (r: Result<(), SyntaxError>)
        requires
            old(self).inv(),
        ensures
            final(self).inv(),
            match operations_handle(old(self).view(), *token) {
                Ok(m) => r is Ok && final(self).view() == m,
                Err(e) => r matches Err(err) && err.view() == e
                    && final(self).view().definitions == operations_kept(old(self).view(), *token),
            },
    {
        match token {
            Token::Group { delimiter, stream, span } => {
                if *delimiter != Delimiter::Bracket {
                    return Err(
                        SyntaxError {
                            span: *span,
                            message: String::from_str(
                                "unexpected punctuation, expected punctuation '['",
                            ),
                        },
                    );
                }
                let ghost start = self.view();
                let n = stream.len();
                let mut i: usize = 0;
                while i < n
                    invariant
                        n == stream@.len(),
                        i <= n,
                        self.inv(),
                        start == old(self).view(),
                        operations_handle(start, *token) == (match operations_run(start, stream@, n as int) {
                            Err(e) => Err(e),
                            Ok(end) => operations_finish(end),
                        }),
                        operations_kept(start, *token) == operations_reach(start, stream@, n as int).definitions,
                        operations_run(start, stream@, i as int)
                            == Ok::<OperationsModel, (u64, Seq<char>)>(self.view()),
                    decreases n - i,
                {
                    match self.step(&stream[i]) {
                        Ok(()) => {},
                        Err(e) => {
                            proof {
                                lemma_operations_error_persists(start, stream@, i as int + 1, n as int);
                                lemma_operations_reach_error(start, stream@, i as int, n as int);
                            }
                            return Err(e);
                        },
                    }
                    i = i + 1;
                }
                proof {
                    lemma_operations_reach_run(start, stream@, n as int);
                }
                if self.colon1.is_some() || self.colon2.is_some() {
                    let at = match &self.colon2 {
                        Some(p) => p.span,
                        None => match &self.colon1 {
                            Some(p) => p.span,
                            None => CALL_SITE,
                        },
                    };
                    return Err(
                        SyntaxError { span: at, message: String::from_str("unexpected end of input") },
                    );
                }
                if self.ident.is_some() {
                    self.commit();
                }
                Ok(())
            },
            _ => Err(
                SyntaxError {
                    span: token.span(),
                    message: String::from_str("unexpected token, expected group"),
                },
            ),
        }
    }
}

proof fn lemma_operations_error_persists(m: OperationsModel, tokens: Seq<Token>, i: int, n: int)
    requires
        0 <= i <= n,
        operations_run(m, tokens, i) is Err,
    ensures
        operations_run(m, tokens, n) == operations_run(m, tokens, i),
    decreases n - i,
{
    if i < n {
        lemma_operations_error_persists(m, tokens, i + 1, n);
    }
}

/// The name of a dependency declaration.
pub open spec fn declared_name() -> spec_fn(((Seq<char>, u64), Option<(Seq<char>, u64)>, (Seq<char>, Seq<char>, u64))) -> Seq<char> {
    |d: ((Seq<char>, u64), Option<(Seq<char>, u64)>, (Seq<char>, Seq<char>, u64))| {
        let ((name, _span), _optional, _literal) = d;
        name
    }
}

/// The names declared so far: those of the completed declarations, then
/// the one being read.
pub open spec fn declared_names(m: DependenciesModel) -> Seq<Seq<char>> {
    m.definitions.map_values(declared_name()) + match m.property {
        Some((name, _span)) => seq![name],
        None => Seq::empty(),
    }
}

/// What reading keeps: the names seen are the names declared, once each,
/// and a `=` is read only after a name.
pub open spec fn dependencies_consistent(m: DependenciesModel) -> bool {
    &&& declared_names(m) == m.seen
    &&& m.seen.no_duplicates()
    &&& m.eq ==> m.property is Some
}

proof fn lemma_dependencies_step_consistent(m: DependenciesModel, t: Token)
    requires
        dependencies_consistent(m),
        dependencies_step(m, t) is Ok,
    ensures
        dependencies_consistent(dependencies_step(m, t)->Ok_0),
{
    let m2 = dependencies_step(m, t)->Ok_0;
    if m.property is None && !m.version {
        let (name, _span) = m2.property->0;
        assert(declared_names(m2) =~= m.seen.push(name));
    } else if m.property is Some && !m.eq {
    } else if m.eq {
        if t is Literal {
            let d = (m.property->0, m.optional, m2.definitions.last().2);
            m.definitions.lemma_push_map_commute(declared_name(), d);
            assert(m2.definitions == m.definitions.push(d));
            assert(declared_names(m2) =~= declared_names(m));
        }
    }
}

proof fn lemma_dependencies_run_consistent(tokens: Seq<Token>, n: int)
    requires
        dependencies_run(dependencies_start(), tokens, n) is Ok,
    ensures
        dependencies_consistent(dependencies_run(dependencies_start(), tokens, n)->Ok_0),
    decreases n,
{
    if n <= 0 {
        assert(declared_names(dependencies_start()) =~= Seq::<Seq<char>>::empty());
    } else {
        lemma_dependencies_run_consistent(tokens, n - 1);
        lemma_dependencies_step_consistent(
            dependencies_run(dependencies_start(), tokens, n - 1)->Ok_0,
            tokens[n - 1],
        );
    }
}

/// A dependency is declared at most once: the declarations that the
/// `dependencies` property accepts have distinct names.
pub proof fn law_declared_dependencies_are_distinct(t: Token)
    requires
        dependencies_handle(dependencies_start(), t) is Ok,
    ensures
        dependencies_handle(dependencies_start(), t)->Ok_0.definitions.map_values(
            declared_name(),
        ).no_duplicates(),
{
    if let Token::Group { stream, .. } = t {
        lemma_dependencies_run_consistent(stream@, stream@.len() as int);
        let m = dependencies_handle(dependencies_start(), t)->Ok_0;
        assert(m == dependencies_run(dependencies_start(), stream@, stream@.len() as int)->Ok_0);
        let defs = m.definitions.map_values(declared_name());
        assert(defs =~= declared_names(m).take(defs.len() as int));
        assert forall|i: int, j: int| 0 <= i < j < defs.len() implies defs[i] != defs[j] by {
            assert(defs[i] == m.seen[i]);
            assert(defs[j] == m.seen[j]);
        }
    }
}

/// The path of an operation's constant, from the path of its function: the
/// last segment in upper case, at the call site.
pub open spec fn constant_path(fn_ref: Seq<TokenView>) -> Seq<TokenView> {
    match fn_ref.last() {
        TokenView::Ident(name, _) => fn_ref.drop_last().push(
            TokenView::Ident(spec_to_uppercase(name), CALL_SITE),
        ),
        _ => fn_ref,
    }
}

/// What reading the list keeps: the two paths being read are the same so
/// far, and each operation read ends in an identifier and names the
/// constant of its function.
pub open spec fn operations_consistent(m: OperationsModel) -> bool {
    &&& m.def_ref == m.fn_ref
    &&& forall|i: int| 0 <= i < m.definitions.len() ==> {
        let (f, d) = #[trigger] m.definitions[i];
        f.len() > 0 && f.last() is Ident && d == constant_path(f)
    }
}

proof fn lemma_commit_consistent(m: OperationsModel)
    requires
        operations_consistent(m),
        m.ident is Some,
    ensures
        operations_consistent(operations_commit(m)),
{
    let m2 = operations_commit(m);
    let (name, span) = m.ident->0;
    let f = m.fn_ref.push(TokenView::Ident(name, span));
    assert(f.drop_last() =~= m.fn_ref);
    assert(m2.definitions == m.definitions.push((f, constant_path(f))));
    assert forall|i: int| 0 <= i < m2.definitions.len() implies {
        let (f, d) = #[trigger] m2.definitions[i];
        f.len() > 0 && f.last() is Ident && d == constant_path(f)
    } by {
        if i < m.definitions.len() {
            assert(m2.definitions[i] == m.definitions[i]);
        }
    }
}

proof fn lemma_operations_step_consistent(m: OperationsModel, t: Token)
    requires
        operations_consistent(m),
        operations_step(m, t) is Ok,
    ensures
        operations_consistent(operations_step(m, t)->Ok_0),
{
    if (m.ident is None && m.colon1 is None) || m.colon2 is Some {
    } else if m.ident is Some && m.colon1 is None {
        if t.is_punct(',') {
            lemma_commit_consistent(m);
        }
    }
}

proof fn lemma_operations_run_consistent(tokens: Seq<Token>, n: int)
    requires
        operations_run(operations_start(), tokens, n) is Ok,
    ensures
        operations_consistent(operations_run(operations_start(), tokens, n)->Ok_0),
    decreases n,
{
    if n > 0 {
        lemma_operations_run_consistent(tokens, n - 1);
        lemma_operations_step_consistent(
            operations_run(operations_start(), tokens, n - 1)->Ok_0,
            tokens[n - 1],
        );
    }
}

/// Each operation that the `ops` property accepts is a path to a function
/// together with the path of that function's constant: the same path with
/// its last segment in upper case, which is the name `op` gives the
/// constant of a function of that name.
pub proof fn law_listed_operations_name_their_constants(t: Token, i: int, sig: crate::op_macro::OpSignature)
    requires
        operations_handle(operations_start(), t) is Ok,
        0 <= i < operations_handle(operations_start(), t)->Ok_0.definitions.len(),
    ensures
        ({
            let (f, d) = operations_handle(operations_start(), t)->Ok_0.definitions[i];
            &&& f.len() > 0
            &&& f.last() is Ident
            &&& d == constant_path(f)
            &&& (f.last() matches TokenView::Ident(name, _) && sig.name@ == name
                && (crate::op_macro::operation_spec(sig) is Ok)) ==> d.last() == TokenView::Ident(
                crate::op_macro::operation_spec(sig)->Ok_0.const_name,
                CALL_SITE,
            )
        }),
{
    if let Token::Group { stream, .. } = t {
        lemma_operations_run_consistent(stream@, stream@.len() as int);
        let end = operations_run(operations_start(), stream@, stream@.len() as int)->Ok_0;
        if end.ident is Some && end.colon1 is None && end.colon2 is None {
            lemma_commit_consistent(end);
        }
        let m = operations_handle(operations_start(), t)->Ok_0;
        let (f, d) = m.definitions[i];
        assert(f.len() > 0 && f.last() is Ident && d == constant_path(f));
    }
}

/// Whether a literal is a string literal whose value semver accepts as a
/// version requirement.
pub open spec fn is_requirement(text: Seq<char>) -> bool {
    spec_lit_str(text) matches Ok(value) && version_req_parse_error(value) is None
}

/// The declarations of a `dependencies` group, when `seen` are the names
/// declared before: nothing, or a name not declared before, `=`, and the
/// rest of its declaration.
pub open spec fn declarations(tokens: Seq<Token>, seen: Seq<Seq<char>>) -> bool
    decreases tokens.len(), 2int,
{
    if tokens.len() == 0 {
        true
    } else {
        tokens.len() >= 2 && (tokens[0] matches Token::Ident { name, .. } && !seen.contains(name@)
            && tokens[1].is_punct('=') && declaration_value(tokens.skip(2), seen.push(name@)))
    }
}

/// The rest of a declaration after its `=`: any number of `optional`,
/// then a version requirement, then what may follow a declaration.
pub open spec fn declaration_value(tokens: Seq<Token>, seen: Seq<Seq<char>>) -> bool
    decreases tokens.len(), 1int,
{
    if tokens.len() == 0 {
        false
    } else {
        match tokens[0] {
            Token::Ident { name, .. } => name@ == "optional"@ && declaration_value(tokens.skip(1), seen),
            Token::Literal { text, .. } => is_requirement(text@) && after_declaration(tokens.skip(1), seen),
            _ => false,
        }
    }
}

/// What may follow a declaration: nothing, or a `,` and more declarations.
pub open spec fn after_declaration(tokens: Seq<Token>, seen: Seq<Seq<char>>) -> bool
    decreases tokens.len(), 0int,
{
    if tokens.len() == 0 {
        true
    } else {
        tokens[0].is_punct(',') && declarations(tokens.skip(1), seen)
    }
}

/// Reading `rest` from the model `m` to the end, front to back: whether it
/// ends without an error, with no declaration left unfinished.
pub open spec fn dependencies_read_ok(m: DependenciesModel, rest: Seq<Token>) -> bool
    decreases rest.len(),
{
    if rest.len() == 0 {
        m.property is None
    } else {
        match dependencies_step(m, rest[0]) {
            Ok(next) => dependencies_read_ok(next, rest.skip(1)),
            Err(_) => false,
        }
    }
}

proof fn lemma_dependencies_run_split(m: DependenciesModel, tokens: Seq<Token>, k: int, n: int)
    requires
        0 <= k <= n <= tokens.len(),
        dependencies_run(m, tokens, k) is Ok,
    ensures
        dependencies_run(m, tokens, n) == dependencies_run(
            dependencies_run(m, tokens, k)->Ok_0,
            tokens.skip(k),
            n - k,
        ),
    decreases n - k,
{
    if n > k {
        lemma_dependencies_run_split(m, tokens, k, n - 1);
        assert(tokens.skip(k)[n - k - 1] == tokens[n - 1]);
    } else {
        assert(dependencies_run(dependencies_run(m, tokens, k)->Ok_0, tokens.skip(k), 0) == Ok::<
            DependenciesModel,
            (u64, Seq<char>),
        >(dependencies_run(m, tokens, k)->Ok_0));
    }
}

/// Reading front to back gives what the reader gives.
proof fn lemma_dependencies_read(m: DependenciesModel, rest: Seq<Token>)
    ensures
        dependencies_read_ok(m, rest) <==> (dependencies_run(m, rest, rest.len() as int) matches Ok(end)
            && end.property is None),
    decreases rest.len(),
{
    if rest.len() > 0 {
        assert(dependencies_run(m, rest, 1) == dependencies_step(m, rest[0])) by {
            assert(dependencies_run(m, rest, 0) == Ok::<DependenciesModel, (u64, Seq<char>)>(m));
        }
        match dependencies_step(m, rest[0]) {
            Ok(next) => {
                lemma_dependencies_run_split(m, rest, 1, rest.len() as int);
                lemma_dependencies_read(next, rest.skip(1));
            },
            Err(_) => {
                lemma_dependencies_error_persists(m, rest, 1, rest.len() as int);
            },
        }
    }
}

proof fn lemma_read_key(m: DependenciesModel, t: Seq<Token>)
    requires
        m.property is None && !m.version && !m.eq,
    ensures
        dependencies_read_ok(m, t) == declarations(t, m.seen),
    decreases t.len(), 3int,
{
    if t.len() > 0 {
        if let Token::Ident { name, span } = t[0] {
            if !m.seen.contains(name@) {
                let m2 = dependencies_step(m, t[0])->Ok_0;
                lemma_read_named(m2, t.skip(1));
                if t.len() >= 2 {
                    assert(t.skip(1).skip(1) =~= t.skip(2));
                }
            }
        }
    }
}

proof fn lemma_read_named(m: DependenciesModel, t: Seq<Token>)
    requires
        m.property is Some && !m.eq && !m.version,
    ensures
        dependencies_read_ok(m, t) == (t.len() > 0 && t[0].is_punct('=') && declaration_value(
            t.skip(1),
            m.seen,
        )),
    decreases t.len(), 2int,
{
    if t.len() > 0 && t[0].is_punct('=') {
        lemma_read_value(dependencies_step(m, t[0])->Ok_0, t.skip(1));
    }
}

proof fn lemma_read_value(m: DependenciesModel, t: Seq<Token>)
    requires
        m.property is Some && m.eq && !m.version,
    ensures
        dependencies_read_ok(m, t) == declaration_value(t, m.seen),
    decreases t.len(), 1int,
{
    if t.len() > 0 {
        match t[0] {
            Token::Ident { name, .. } => {
                if name@ == "optional"@ {
                    lemma_read_value(dependencies_step(m, t[0])->Ok_0, t.skip(1));
                }
            },
            Token::Literal { text, .. } => {
                if is_requirement(text@) {
                    lemma_read_after(dependencies_step(m, t[0])->Ok_0, t.skip(1));
                }
            },
            _ => {},
        }
    }
}

proof fn lemma_read_after(m: DependenciesModel, t: Seq<Token>)
    requires
        m.property is None && m.version && !m.eq,
    ensures
        dependencies_read_ok(m, t) == after_declaration(t, m.seen),
    decreases t.len(), 0int,
{
    if t.len() > 0 && t[0].is_punct(',') {
        lemma_read_key(dependencies_step(m, t[0])->Ok_0, t.skip(1));
    }
}

/// The `dependencies` property accepts a braced group exactly when it
/// holds declarations `name = optional* "requirement"`, separated by
/// commas with a trailing comma allowed, each name declared once and each
/// requirement a string literal that semver accepts.
pub proof fn law_dependencies_accept_declarations(t: Token)
    ensures
        match t {
            Token::Group { delimiter, stream, .. } => delimiter == Delimiter::Brace ==> (
            dependencies_handle(dependencies_start(), t) is Ok <==> declarations(stream@, Seq::empty())),
            _ => true,
        },
{
    if let Token::Group { delimiter, stream, .. } = t {
        if delimiter == Delimiter::Brace {
            lemma_dependencies_read(dependencies_start(), stream@);
            lemma_read_key(dependencies_start(), stream@);
        }
    }
}

/// The declarations written in a `dependencies` group, read front to back:
/// each is its name, the `optional` written between its own `=` and its own
/// version literal (the last one, if several; none if none), and that
/// literal with its value.
pub open spec fn written_declarations(tokens: Seq<Token>) -> Seq<((Seq<char>, u64), Option<(Seq<char>, u64)>, (Seq<char>, Seq<char>, u64))>
    decreases tokens.len(), 2int,
{
    if tokens.len() >= 2 {
        match tokens[0] {
            Token::Ident { name, span } => written_value(tokens.skip(2), (name@, span), None),
            _ => Seq::empty(),
        }
    } else {
        Seq::empty()
    }
}

/// The declarations written from the value of the declaration of `key`
/// on, `marker` being the `optional` written since its `=`.
pub open spec fn written_value(
    tokens: Seq<Token>,
    key: (Seq<char>, u64),
    marker: Option<(Seq<char>, u64)>,
) -> Seq<((Seq<char>, u64), Option<(Seq<char>, u64)>, (Seq<char>, Seq<char>, u64))>
    decreases tokens.len(), 1int,
{
    if tokens.len() == 0 {
        Seq::empty()
    } else {
        match tokens[0] {
            Token::Ident { name, span } => written_value(tokens.skip(1), key, Some((name@, span))),
            Token::Literal { text, span } => seq![(key, marker, (spec_lit_str(text@)->Ok_0, text@, span))]
                + written_after(tokens.skip(1)),
            _ => Seq::empty(),
        }
    }
}

/// The declarations written after a `,` that ends a declaration.
pub open spec fn written_after(tokens: Seq<Token>) -> Seq<((Seq<char>, u64), Option<(Seq<char>, u64)>, (Seq<char>, Seq<char>, u64))>
    decreases tokens.len(), 0int,
{
    if tokens.len() == 0 {
        Seq::empty()
    } else {
        written_declarations(tokens.skip(1))
    }
}

proof fn lemma_run_first(m: DependenciesModel, t: Seq<Token>)
    requires
        t.len() > 0,
        dependencies_step(m, t[0]) is Ok,
    ensures
        dependencies_run(m, t, t.len() as int) == dependencies_run(
            dependencies_step(m, t[0])->Ok_0,
            t.skip(1),
            t.len() - 1,
        ),
{
    assert(dependencies_run(m, t, 0) == Ok::<DependenciesModel, (u64, Seq<char>)>(m));
    assert(dependencies_run(m, t, 1) == dependencies_step(m, t[0]));
    lemma_dependencies_run_split(m, t, 1, t.len() as int);
}

proof fn lemma_end_key(m: DependenciesModel, t: Seq<Token>)
    requires
        m.property is None && !m.version && !m.eq && m.optional is None,
        declarations(t, m.seen),
    ensures
        dependencies_run(m, t, t.len() as int) matches Ok(end) && end.property is None
            && end.definitions == m.definitions + written_declarations(t),
    decreases t.len(), 3int,
{
    if t.len() == 0 {
        assert(m.definitions + written_declarations(t) =~= m.definitions);
    } else {
        let m2 = dependencies_step(m, t[0])->Ok_0;
        lemma_run_first(m, t);
        assert(t.skip(1).skip(1) =~= t.skip(2));
        assert(t.skip(1)[0] == t[1]);
        lemma_end_named(m2, t.skip(1));
    }
}

proof fn lemma_end_named(m: DependenciesModel, t: Seq<Token>)
    requires
        m.property is Some && !m.eq && !m.version && m.optional is None,
        t.len() > 0 && t[0].is_punct('=') && declaration_value(t.skip(1), m.seen),
    ensures
        dependencies_run(m, t, t.len() as int) matches Ok(end) && end.property is None
            && end.definitions == m.definitions + written_value(t.skip(1), m.property->0, None),
    decreases t.len(), 2int,
{
    lemma_run_first(m, t);
    lemma_end_value(dependencies_step(m, t[0])->Ok_0, t.skip(1));
}

proof fn lemma_end_value(m: DependenciesModel, t: Seq<Token>)
    requires
        m.property is Some && m.eq && !m.version,
        declaration_value(t, m.seen),
    ensures
        dependencies_run(m, t, t.len() as int) matches Ok(end) && end.property is None
            && end.definitions == m.definitions + written_value(t, m.property->0, m.optional),
    decreases t.len(), 1int,
{
    lemma_run_first(m, t);
    let m2 = dependencies_step(m, t[0])->Ok_0;
    match t[0] {
        Token::Ident { name, span } => {
            lemma_end_value(m2, t.skip(1));
        },
        Token::Literal { text, span } => {
            lemma_end_after(m2, t.skip(1));
            let d = (m.property->0, m.optional, (spec_lit_str(text@)->Ok_0, text@, span));
            assert(m2.definitions == m.definitions.push(d));
            assert(m.definitions + written_value(t, m.property->0, m.optional) =~= m.definitions.push(d)
                + written_after(t.skip(1)));
        },
        _ => {},
    }
}

proof fn lemma_end_after(m: DependenciesModel, t: Seq<Token>)
    requires
        m.property is None && m.version && !m.eq && m.optional is None,
        after_declaration(t, m.seen),
    ensures
        dependencies_run(m, t, t.len() as int) matches Ok(end) && end.property is None
            && end.definitions == m.definitions + written_after(t),
    decreases t.len(), 0int,
{
    if t.len() == 0 {
        assert(m.definitions + written_after(t) =~= m.definitions);
    } else {
        lemma_run_first(m, t);
        lemma_end_key(dependencies_step(m, t[0])->Ok_0, t.skip(1));
    }
}

/// The declarations that the `dependencies` property accepts are those
/// written in its group, in order: each with its own name, its own
/// version literal, and an `optional` marker exactly when `optional` is
/// written between its own `=` and its own literal.
pub proof fn law_declarations_are_as_written(t: Token)
    requires
        dependencies_handle(dependencies_start(), t) is Ok,
    ensures
        t matches Token::Group { stream, .. } && dependencies_handle(dependencies_start(), t)->Ok_0.definitions
            == written_declarations(stream@),
{
    law_dependencies_accept_declarations(t);
    if let Token::Group { stream, .. } = t {
        lemma_end_key(dependencies_start(), stream@);
        assert(Seq::<((Seq<char>, u64), Option<(Seq<char>, u64)>, (Seq<char>, Seq<char>, u64))>::empty()
            + written_declarations(stream@) =~= written_declarations(stream@));
    }
}

/// The first `n` tokens of a list split at its commas: the elements
/// completed by a comma, each the views of its tokens in order, and the
/// tokens of the element begun after the last comma.
pub open spec fn comma_split(tokens: Seq<Token>, n: int) -> (Seq<Seq<TokenView>>, Seq<TokenView>)
    decreases n,
{
    if n <= 0 {
        (Seq::empty(), Seq::empty())
    } else {
        let (done, current) = comma_split(tokens, n - 1);
        if tokens[n - 1].is_punct(',') {
            (done.push(current), Seq::empty())
        } else {
            (done, current.push(tokens[n - 1].view()))
        }
    }
}

/// The elements of a comma-separated list, as the views of their tokens;
/// a trailing comma ends the list without starting an element.
pub open spec fn list_elements(tokens: Seq<Token>) -> Seq<Seq<TokenView>> {
    let (done, current) = comma_split(tokens, tokens.len() as int);
    if current.len() == 0 {
        done
    } else {
        done.push(current)
    }
}

/// What the reader holds of the operation being read, in the order read:
/// the path so far, the `:` read after it, and the segment just read.
pub open spec fn operation_read(m: OperationsModel) -> Seq<TokenView> {
    m.fn_ref + match (m.colon1, m.colon2) {
        (Some(a), Some(b)) => seq![punct_view(a), punct_view(b)],
        (Some(a), None) => seq![punct_view(a)],
        _ => Seq::empty(),
    } + match m.ident {
        Some((name, span)) => seq![TokenView::Ident(name, span)],
        None => Seq::empty(),
    }
}

/// How the reader's model follows the split of what it has read.
pub open spec fn operations_follow(m: OperationsModel, tokens: Seq<Token>, n: int) -> bool {
    let (done, current) = comma_split(tokens, n);
    &&& m.definitions.len() == done.len()
    &&& forall|i: int| 0 <= i < done.len() ==> (#[trigger] m.definitions[i]).0 == done[i]
    &&& operation_read(m) == current
    &&& m.colon2 is Some ==> m.colon1 is Some
    &&& m.colon1 is Some ==> m.ident is None
    &&& m.ident is None && m.colon1 is None ==> m.fn_ref.len() == 0
}

proof fn lemma_operations_follow(tokens: Seq<Token>, n: int)
    requires
        0 <= n <= tokens.len(),
        operations_run(operations_start(), tokens, n) is Ok,
    ensures
        operations_follow(operations_run(operations_start(), tokens, n)->Ok_0, tokens, n),
    decreases n,
{
    if n == 0 {
        assert(operation_read(operations_start()) =~= Seq::<TokenView>::empty());
    } else {
        lemma_operations_follow(tokens, n - 1);
        let m = operations_run(operations_start(), tokens, n - 1)->Ok_0;
        let m2 = operations_run(operations_start(), tokens, n)->Ok_0;
        let t = tokens[n - 1];
        let (done, current) = comma_split(tokens, n - 1);
        assert(m2 == operations_step(m, t)->Ok_0);
        if (m.ident is None && m.colon1 is None) || m.colon2 is Some {
            assert(operation_read(m2) =~= current.push(t.view()));
        } else if m.ident is Some && m.colon1 is None {
            if t.is_punct(',') {
                let (name, span) = m.ident->0;
                assert(operation_read(m) =~= m.fn_ref.push(TokenView::Ident(name, span)));
                assert(operation_read(m2) =~= Seq::<TokenView>::empty());
                assert forall|i: int| 0 <= i < done.len() + 1 implies (#[trigger] m2.definitions[i]).0
                    == done.push(current)[i] by {
                    if i < done.len() {
                        assert(m2.definitions[i] == m.definitions[i]);
                    }
                }
            } else {
                assert(operation_read(m2) =~= current.push(t.view()));
            }
        } else {
            assert(operation_read(m2) =~= current.push(t.view()));
        }
    }
}

/// The operations that the `ops` property accepts are the elements of its
/// list, in order: the path of each function is exactly the tokens written
/// between its separating commas, and the path of its constant is that
/// path with the last segment in upper case.
pub proof fn law_operations_are_as_written(t: Token)
    requires
        operations_handle(operations_start(), t) is Ok,
    ensures
        t matches Token::Group { stream, .. } && ({
            let defs = operations_handle(operations_start(), t)->Ok_0.definitions;
            &&& defs.len() == list_elements(stream@).len()
            &&& forall|i: int| 0 <= i < defs.len() ==> (#[trigger] defs[i]).0 == list_elements(stream@)[i]
                && defs[i].1 == constant_path(defs[i].0)
        }),
{
    if let Token::Group { stream, .. } = t {
        let n = stream@.len() as int;
        lemma_operations_follow(stream@, n);
        lemma_operations_run_consistent(stream@, n);
        let end = operations_run(operations_start(), stream@, n)->Ok_0;
        let (done, current) = comma_split(stream@, n);
        let defs = operations_handle(operations_start(), t)->Ok_0.definitions;
        if end.ident is Some {
            lemma_commit_consistent(end);
            let (name, span) = end.ident->0;
            assert(operation_read(end) =~= end.fn_ref.push(TokenView::Ident(name, span)));
            assert forall|i: int| 0 <= i < defs.len() implies (#[trigger] defs[i]).0 == list_elements(stream@)[i] by {
                if i < done.len() {
                    assert(defs[i] == end.definitions[i]);
                }
            }
        } else {
            assert(operation_read(end) =~= Seq::<TokenView>::empty());
        }
        assert forall|i: int| 0 <= i < defs.len() implies (#[trigger] defs[i]).1 == constant_path(defs[i].0) by {
            let (f, d) = defs[i];
        }
    }
}

} // verus!
