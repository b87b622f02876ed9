//! The `op` attribute: what it demands of the function it marks, and what
//! it makes of it.
//!
//! An operation is a safe function of at most one parameter, bound by a
//! plain name. The attribute hands that parameter to the body from the
//! operation's context, gives the function a public constant named after it
//! in upper case, and narrows a `pub` function to the crate.

use vstd::prelude::*;
use crate::tokens::{
    append_tokens, copy_tokens, mark, push_group, push_ident, push_literal, push_mark, push_path_sep,
    push_path_sep_at, push_punct_at, push_token, push_word, push_word_at, spec_to_uppercase,
    with_path_sep_at, to_uppercase, trees, with_path_sep, word, Delimiter,
    Spacing, SyntaxError, Token, TokenTree, CALL_SITE,
};

verus! {

/// The pattern of a parameter.
pub enum OpPattern {
    /// A binding `ref? mut? name @ subpattern?`: the span of its `ref` if
    /// any, whether it is `mut`, whether it has a subpattern, its name and
    /// where the name stands.
    Ident { by_ref: Option<u64>, mutability: bool, subpat: bool, name: String, name_span: u64 },
    /// Any other pattern, and where it stands.
    Other { span: u64 },
}

/// A parameter of the marked function.
pub enum OpParam {
    /// `self` in some form, and where it stands.
    Receiver { span: u64 },
    /// A typed parameter: its pattern, its type, and where the whole
    /// parameter stands.
    Typed { pat: OpPattern, ty: Vec<Token>, span: u64 },
}

impl OpParam {
    /// Where the parameter stands.
    pub open spec fn spec_span(&self) -> u64 {
        match self {
            OpParam::Receiver { span } => *span,
            OpParam::Typed { span, .. } => *span,
        }
    }

    fn span(&self) -> (s: u64)
        ensures
            s == self.spec_span(),
    {
        match self {
            OpParam::Receiver { span } => *span,
            OpParam::Typed { span, .. } => *span,
        }
    }
}

/// The visibility of the marked function.
pub enum FnVisibility {
    Inherited,
    /// `pub(...)`, and its tokens.
    Restricted { tokens: Vec<Token> },
    /// `pub`, and where it stands.
    Public { span: u64 },
}

/// The visibility the function keeps.
#[derive(Clone, Copy, Debug, PartialEq, Eq, Structural)]
pub enum OpVisibility {
    Inherited,
    /// The restriction it had.
    Restricted,
    /// `pub(crate)`, where its `pub` stood.
    Crate { span: u64 },
}

/// What the attribute reads of the function it marks.
pub struct OpSignature {
    /// Its outer attributes.
    pub attrs: Vec<Token>,
    pub visibility: FnVisibility,
    /// Its `const` and `extern "abi"` qualifiers, if any.
    pub qualifiers: Vec<Token>,
    /// The span of its `unsafe`, if it is unsafe.
    pub unsafety: Option<u64>,
    /// Where its `fn` stands.
    pub fn_span: u64,
    pub name: String,
    /// Where its name stands.
    pub ident_span: u64,
    /// Its generic parameters, in angle brackets, if any.
    pub generics: Vec<Token>,
    pub inputs: Vec<OpParam>,
    /// Its return type, when it declares one: where the two characters of
    /// its `->` stand, and the type.
    pub output: Option<(u64, u64, Vec<Token>)>,
    /// Its `where` clause, if any.
    pub where_clause: Vec<Token>,
    /// Its body, a braced group.
    pub block: Token,
}

/// The item the attribute is put on.
pub enum OpItem {
    Function(OpSignature),
    /// Anything else, and where it stands.
    Other { span: u64 },
}

/// What the attribute makes of a function.
pub struct OpPlan {
    /// The name the operation's input is bound to in the body, when the
    /// function takes a parameter.
    pub input_name: Option<String>,
    /// The name of the operation's constant: the function's in upper case.
    pub const_name: String,
    /// The string literal naming the operation: the constant's name in
    /// double quotes.
    pub name_literal: String,
    pub visibility: OpVisibility,
    /// What the attribute writes: the function rewritten, then its
    /// constant.
    pub tokens: Vec<Token>,
}

/// The view of a plan.
pub struct PlanModel {
    pub input_name: Option<Seq<char>>,
    pub const_name: Seq<char>,
    pub name_literal: Seq<char>,
    pub visibility: OpVisibility,
    pub tokens: Seq<TokenTree>,
}

impl OpPlan {
    pub open spec fn view(&self) -> PlanModel {
        PlanModel {
            input_name: match self.input_name {
                Some(n) => Some(n@),
                None => None,
            },
            const_name: self.const_name@,
            name_literal: self.name_literal@,
            visibility: self.visibility,
            tokens: trees(self.tokens@),
        }
    }
}

/// The name a parameter binds, or why it is refused. The checks after the
/// first point at the call site.
pub open spec fn param_check(p: OpParam) -> Result<Seq<char>, (u64, Seq<char>)> {
    match p {
        OpParam::Receiver { span } => Err((span, "parameter should be typed, not a receiver"@)),
        OpParam::Typed { pat, .. } => match pat {
            OpPattern::Other { span } => Err((span, "parameter should be a binding identifier"@)),
            OpPattern::Ident { by_ref, mutability, subpat, name, .. } => if by_ref is Some {
                Err((by_ref->0, "parameter must be owned"@))
            } else if mutability {
                Err((CALL_SITE, "parameter must not be mutable"@))
            } else if subpat {
                Err((CALL_SITE, "parameter must not have subpattern"@))
            } else if name@ == "tnn_operation_context"@ {
                Err((CALL_SITE, "parameter must not be named 'tnn_operation_context'"@))
            } else {
                Ok(name@)
            },
        },
    }
}

/// A `pub` function becomes `pub(crate)`; any other keeps its visibility.
pub open spec fn plan_visibility(v: FnVisibility) -> OpVisibility {
    match v {
        FnVisibility::Inherited => OpVisibility::Inherited,
        FnVisibility::Restricted { .. } => OpVisibility::Restricted,
        FnVisibility::Public { span } => OpVisibility::Crate { span },
    }
}

/// What the attribute makes of a function, or the first reason it refuses
/// it: an `unsafe` function, a second parameter, a parameter that is not a
/// plain owned binding.
pub open spec fn operation_spec(sig: OpSignature) -> Result<PlanModel, (u64, Seq<char>)> {
    if sig.unsafety is Some {
        Err((sig.unsafety->0, "op should not be unsafe (NO_UNSAFE_OP)"@))
    } else if sig.inputs@.len() > 1 {
        Err((sig.inputs@[1].spec_span(), "op should only accept a single parameter"@))
    } else {
        let input: Result<Option<Seq<char>>, (u64, Seq<char>)> = if sig.inputs@.len() == 0 {
            Ok(None)
        } else {
            match param_check(sig.inputs@[0]) {
                Ok(n) => Ok(Some(n)),
                Err(e) => Err(e),
            }
        };
        match input {
            Err(e) => Err(e),
            Ok(input_name) => Ok(
                PlanModel {
                    input_name,
                    const_name: spec_to_uppercase(sig.name@),
                    name_literal: seq!['"'] + spec_to_uppercase(sig.name@) + seq!['"'],
                    visibility: plan_visibility(sig.visibility),
                    tokens: op_tokens(sig, input_name),
                },
            ),
        }
    }
}

/// What the attribute makes of an item: only a function is accepted.
pub open spec fn op_spec(item: OpItem) -> Result<PlanModel, (u64, Seq<char>)> {
    match item {
        OpItem::Function(sig) => operation_spec(sig),
        OpItem::Other { span } => Err((span, "op can only be used on a function"@)),
    }
}

fn error_at(span: u64, message: &str) -> (e: SyntaxError)
    ensures
        e.view() == (span, message@),
{
    SyntaxError { span, message: String::from_str(message) }
}

/// Checks the parameter of an operation and returns the name it binds.
fn check_param(p: &OpParam) -> (r: Result<String, SyntaxError>)
    ensures
        match param_check(*p) {
            Ok(n) => r matches Ok(name) && name@ == n,
            Err(e) => r matches Err(err) && err.view() == e,
        },
{
    match p {
        OpParam::Receiver { span } => Err(error_at(*span, "parameter should be typed, not a receiver")),
        OpParam::Typed { pat, .. } => match pat {
            OpPattern::Other { span } => Err(error_at(*span, "parameter should be a binding identifier")),
            OpPattern::Ident { by_ref, mutability, subpat, name, .. } => {
                if let Some(at) = by_ref {
                    return Err(error_at(*at, "parameter must be owned"));
                }
                if *mutability {
                    return Err(error_at(CALL_SITE, "parameter must not be mutable"));
                }
                if *subpat {
                    return Err(error_at(CALL_SITE, "parameter must not have subpattern"));
                }
                if *name == String::from_str("tnn_operation_context") {
                    return Err(
                        error_at(CALL_SITE, "parameter must not be named 'tnn_operation_context'"),
                    );
                }
                Ok(name.clone())
            },
        },
    }
}

/// Checks a function marked as an operation and says what it becomes.
pub fn expand_operation_function(sig: OpSignature) -> (r: Result<OpPlan, SyntaxError>)
    ensures
        match operation_spec(sig) {
            Ok(p) => r matches Ok(plan) && plan.view() == p,
            Err(e) => r matches Err(err) && err.view() == e,
        },
{
    if let Some(at) = sig.unsafety {
        return Err(error_at(at, "op should not be unsafe (NO_UNSAFE_OP)"));
    }
    if sig.inputs.len() > 1 {
        return Err(error_at(sig.inputs[1].span(), "op should only accept a single parameter"));
    }
    let input_name = if sig.inputs.len() < 1 {
        None
    } else {
        match check_param(&sig.inputs[0]) {
            Ok(name) => Some(name),
            Err(e) => return Err(e),
        }
    };
    let visibility = match &sig.visibility {
        FnVisibility::Inherited => OpVisibility::Inherited,
        FnVisibility::Restricted { .. } => OpVisibility::Restricted,
        FnVisibility::Public { span } => OpVisibility::Crate { span: *span },
    };
    let const_name = to_uppercase(sig.name.as_str());
    let mut name_literal = String::from_str("\"");
    name_literal.append(const_name.as_str());
    name_literal.append("\"");
    proof {
        reveal_strlit("\"");
        assert("\""@ == seq!['"']);
        assert(name_literal@ == seq!['"'] + spec_to_uppercase(sig.name@) + seq!['"']);
        assert(visibility == plan_visibility(sig.visibility));
    }
    let name_span: u64 = if sig.inputs.len() > 0 {
        match &sig.inputs[sig.inputs.len() - 1] {
            OpParam::Typed { pat: OpPattern::Ident { name_span, .. }, .. } => *name_span,
            _ => CALL_SITE,
        }
    } else {
        CALL_SITE
    };
    let ghost s = sig;
    let ghost bound = match input_name {
        Some(ref n) => Some(n@),
        None => None,
    };
    let OpSignature {
        attrs,
        visibility: fn_visibility,
        qualifiers,
        unsafety: _,
        fn_span,
        name,
        ident_span,
        generics,
        inputs,
        output,
        where_clause,
        block,
    } = sig;
    let mut inputs = inputs;
    let input_type = match inputs.pop() {
        Some(OpParam::Typed { ty, .. }) => ty,
        _ => unit_type_tokens(),
    };
    let (a1, a2, output_type) = match output {
        Some((a1, a2, r)) => (a1, a2, r),
        None => (CALL_SITE, CALL_SITE, unit_type_tokens()),
    };
    let input_copy = copy_tokens(&input_type);
    let output_copy = copy_tokens(&output_type);
    let block_span = block.span();
    let mut out: Vec<Token> = Vec::new();
    append_tokens(&mut out, attrs);
    write_vis(&mut out, fn_visibility);
    append_tokens(&mut out, qualifiers);
    write_fn_name(&mut out, name, ident_span, fn_span);
    append_tokens(&mut out, generics);
    let mut params: Vec<Token> = Vec::new();
    write_context_param(&mut params, input_type);
    push_group(&mut out, Delimiter::Parenthesis, params, CALL_SITE);
    write_return_part(&mut out, output_type, a1, a2);
    append_tokens(&mut out, where_clause);
    let mut body: Vec<Token> = Vec::new();
    match &input_name {
        Some(x) => write_binding_part(&mut body, x.clone(), name_span),
        None => {},
    }
    write_boxed_pin(&mut body, block_span);
    let mut inner: Vec<Token> = Vec::new();
    write_async_block(&mut inner, block, block_span);
    push_group(&mut body, Delimiter::Parenthesis, inner, block_span);
    push_group(&mut out, Delimiter::Brace, body, block_span);
    write_const_head(&mut out, const_name.clone(), input_copy, output_copy);
    let mut fields: Vec<Token> = Vec::new();
    write_const_fields(&mut fields, name_literal.clone());
    let mut args: Vec<Token> = Vec::new();
    write_id_args(&mut args, name_literal.clone());
    push_group(&mut fields, Delimiter::Parenthesis, args, CALL_SITE);
    push_group(&mut out, Delimiter::Brace, fields, CALL_SITE);
    push_mark(&mut out, ';', Spacing::Alone);
    proof {
        assert(trees(out@) == op_tokens(s, bound));
    }
    Ok(OpPlan { input_name, const_name, name_literal, visibility, tokens: out })
}

/// `()`, at the call site.
fn unit_type_tokens() -> (r: Vec<Token>)
    ensures
        trees(r@) == unit_type(),
{
    let mut r: Vec<Token> = Vec::new();
    push_group(&mut r, Delimiter::Parenthesis, Vec::new(), CALL_SITE);
    proof {
        assert(trees(r@) =~= unit_type());
    }
    r
}

/// The type `()`, at the call site.
pub open spec fn unit_type() -> Seq<TokenTree> {
    seq![TokenTree::Group(Delimiter::Parenthesis, Seq::empty(), CALL_SITE)]
}

/// The operation's input type: the parameter's type, or `()` when it
/// takes none.
pub open spec fn input_type_of(sig: OpSignature) -> Seq<TokenTree> {
    if sig.inputs@.len() > 0 {
        match sig.inputs@.last() {
            OpParam::Typed { ty, .. } => trees(ty@),
            _ => unit_type(),
        }
    } else {
        unit_type()
    }
}

/// The operation's output type: the declared return type, or `()`.
pub open spec fn output_type_of(sig: OpSignature) -> Seq<TokenTree> {
    match sig.output {
        Some((_, _, r)) => trees(r@),
        None => unit_type(),
    }
}

/// Where the `->` of the return type stands: the declared one's, or the
/// call site.
pub open spec fn arrow_spans(sig: OpSignature) -> (u64, u64) {
    match sig.output {
        Some((a1, a2, _)) => (a1, a2),
        None => (CALL_SITE, CALL_SITE),
    }
}

/// Where the name the parameter binds stands.
pub open spec fn input_name_span(sig: OpSignature) -> u64 {
    if sig.inputs@.len() > 0 {
        match sig.inputs@.last() {
            OpParam::Typed { pat: OpPattern::Ident { name_span, .. }, .. } => name_span,
            _ => CALL_SITE,
        }
    } else {
        CALL_SITE
    }
}

/// `acc`, then the visibility the function keeps: none, its restriction,
/// or `pub(crate)` where its `pub` stood.
pub open spec fn vis_part(acc: Seq<TokenTree>, v: FnVisibility) -> Seq<TokenTree> {
    match v {
        FnVisibility::Inherited => acc,
        FnVisibility::Restricted { tokens } => acc + trees(tokens@),
        FnVisibility::Public { span } => acc.push(TokenTree::Ident("pub"@, span)).push(
            TokenTree::Group(Delimiter::Parenthesis, seq![TokenTree::Ident("crate"@, span)], span),
        ),
    }
}

fn write_vis(v: &mut Vec<Token>, vis: FnVisibility)
    ensures
        trees(final(v)@) == vis_part(trees(old(v)@), vis),
{
    match vis {
        FnVisibility::Inherited => {},
        FnVisibility::Restricted { tokens } => append_tokens(v, tokens),
        FnVisibility::Public { span } => {
            push_ident(v, String::from_str("pub"), span);
            let mut inner: Vec<Token> = Vec::new();
            push_ident(&mut inner, String::from_str("crate"), span);
            proof {
                assert(trees(inner@) =~= seq![TokenTree::Ident("crate"@, span)]);
            }
            push_group(v, Delimiter::Parenthesis, inner, span);
        },
    }
}

/// What the attribute writes for an accepted function: the function with
/// its outer attributes, its visibility narrowed from `pub` to
/// `pub(crate)`, without `async`, with the operation's context as its only
/// parameter, returning a pinned, boxed future of its return type, and
/// with a body that binds the input, when it takes one, and boxes the
/// function's own body as an `async move` block; then the public constant named
/// after it in upper case, of type `Operation` over its input and output
/// types, whose name is that name and whose id joins the extension's name,
/// `/` and that name.
pub open spec fn op_tokens(sig: OpSignature, input_name: Option<Seq<char>>) -> Seq<TokenTree> {
    let t = input_type_of(sig);
    let r = output_type_of(sig);
    let upper = spec_to_uppercase(sig.name@);
    let lit = seq!['"'] + upper + seq!['"'];
    let head = fn_name(
        vis_part(Seq::empty() + trees(sig.attrs@), sig.visibility) + trees(sig.qualifiers@),
        sig.name@,
        sig.ident_span,
        sig.fn_span,
    ) + trees(sig.generics@);
    let with_params = head.push(
        TokenTree::Group(Delimiter::Parenthesis, context_param(Seq::empty(), t), CALL_SITE),
    );
    let (a1, a2) = arrow_spans(sig);
    let signature = return_part(with_params, r, a1, a2) + trees(sig.where_clause@);
    let bound = match input_name {
        Some(x) => binding_part(Seq::empty(), x, input_name_span(sig)),
        None => Seq::empty(),
    };
    let b = sig.block.spec_span();
    let call = boxed_pin(bound, b).push(
        TokenTree::Group(Delimiter::Parenthesis, async_block(Seq::empty(), sig.block.tree(), b), b),
    );
    let with_body = signature.push(TokenTree::Group(Delimiter::Brace, call, sig.block.spec_span()));
    let fields = const_fields(Seq::empty(), lit).push(
        TokenTree::Group(Delimiter::Parenthesis, id_args(Seq::empty(), lit), CALL_SITE),
    );
    const_head(with_body, upper, t, r).push(TokenTree::Group(Delimiter::Brace, fields, CALL_SITE)).push(
        mark(';', Spacing::Alone),
    )
}

/// `acc`, then the operation context parameter with input type `t`.
pub open spec fn context_param(acc: Seq<TokenTree>, t: Seq<TokenTree>) -> Seq<TokenTree> {
    (with_path_sep(with_path_sep(acc.push(word("tnn_operation_context"@)).push(mark(':', Spacing::Alone))).push(word("tnn"@))).push(word("OpContext"@)).push(mark('<', Spacing::Alone)).push(mark('\'', Spacing::Joint)).push(word("_"@)).push(mark(',', Spacing::Alone)) + t).push(mark('>', Spacing::Alone))
}

fn write_context_param(v: &mut Vec<Token>, t: Vec<Token>)
    ensures
        trees(final(v)@) == context_param(trees(old(v)@), trees(t@)),
{
    push_word(v, "tnn_operation_context");
    push_mark(v, ':', Spacing::Alone);
    push_path_sep(v);
    push_word(v, "tnn");
    push_path_sep(v);
    push_word(v, "OpContext");
    push_mark(v, '<', Spacing::Alone);
    push_mark(v, '\'', Spacing::Joint);
    push_word(v, "_");
    push_mark(v, ',', Spacing::Alone);
    append_tokens(v, t);
    push_mark(v, '>', Spacing::Alone);
}

/// `acc`, then the head of the operation's constant `name`, with input type `t` and output type `r`, up to its value's type.
pub open spec fn const_head(acc: Seq<TokenTree>, name: Seq<char>, t: Seq<TokenTree>, r: Seq<TokenTree>) -> Seq<TokenTree> {
    with_path_sep(with_path_sep(((with_path_sep(with_path_sep(acc.push(word("pub"@)).push(word("const"@)).push(TokenTree::Ident(name, CALL_SITE)).push(mark(':', Spacing::Alone))).push(word("tnn"@))).push(word("Operation"@)).push(mark('<', Spacing::Alone)).push(mark('\'', Spacing::Joint)).push(word("_"@)).push(mark(',', Spacing::Alone)) + t).push(mark(',', Spacing::Alone)) + r).push(mark('>', Spacing::Alone)).push(mark('=', Spacing::Alone))).push(word("tnn"@))).push(word("Operation"@))
}

fn write_const_head(v: &mut Vec<Token>, name: String, t: Vec<Token>, r: Vec<Token>)
    ensures
        trees(final(v)@) == const_head(trees(old(v)@), name@, trees(t@), trees(r@)),
{
    push_word(v, "pub");
    push_word(v, "const");
    push_ident(v, name, CALL_SITE);
    push_mark(v, ':', Spacing::Alone);
    push_path_sep(v);
    push_word(v, "tnn");
    push_path_sep(v);
    push_word(v, "Operation");
    push_mark(v, '<', Spacing::Alone);
    push_mark(v, '\'', Spacing::Joint);
    push_word(v, "_");
    push_mark(v, ',', Spacing::Alone);
    append_tokens(v, t);
    push_mark(v, ',', Spacing::Alone);
    append_tokens(v, r);
    push_mark(v, '>', Spacing::Alone);
    push_mark(v, '=', Spacing::Alone);
    push_path_sep(v);
    push_word(v, "tnn");
    push_path_sep(v);
    push_word(v, "Operation");
}

/// `acc`, then the fields of the operation's constant named by the literal `lit`, up to its id.
pub open spec fn const_fields(acc: Seq<TokenTree>, lit: Seq<char>) -> Seq<TokenTree> {
    with_path_sep(with_path_sep(with_path_sep(with_path_sep(with_path_sep(with_path_sep(with_path_sep(acc.push(word("_phantom"@)).push(mark(':', Spacing::Alone))).push(word("std"@))).push(word("marker"@))).push(word("PhantomData"@)).push(mark(',', Spacing::Alone)).push(word("name"@)).push(mark(':', Spacing::Alone)).push(TokenTree::Literal(lit, CALL_SITE)).push(mark(',', Spacing::Alone)).push(word("owner"@)).push(mark(':', Spacing::Alone)).push(word("crate"@))).push(word("EXTENSION_NAME"@)).push(mark(',', Spacing::Alone)).push(word("id"@)).push(mark(':', Spacing::Alone))).push(word("tnn"@))).push(word("__private"@))).push(word("concatcp"@)).push(mark('!', Spacing::Alone))
}

fn write_const_fields(v: &mut Vec<Token>, lit: String)
    ensures
        trees(final(v)@) == const_fields(trees(old(v)@), lit@),
{
    push_word(v, "_phantom");
    push_mark(v, ':', Spacing::Alone);
    push_path_sep(v);
    push_word(v, "std");
    push_path_sep(v);
    push_word(v, "marker");
    push_path_sep(v);
    push_word(v, "PhantomData");
    push_mark(v, ',', Spacing::Alone);
    push_word(v, "name");
    push_mark(v, ':', Spacing::Alone);
    push_literal(v, lit);
    push_mark(v, ',', Spacing::Alone);
    push_word(v, "owner");
    push_mark(v, ':', Spacing::Alone);
    push_word(v, "crate");
    push_path_sep(v);
    push_word(v, "EXTENSION_NAME");
    push_mark(v, ',', Spacing::Alone);
    push_word(v, "id");
    push_mark(v, ':', Spacing::Alone);
    push_path_sep(v);
    push_word(v, "tnn");
    push_path_sep(v);
    push_word(v, "__private");
    push_path_sep(v);
    push_word(v, "concatcp");
    push_mark(v, '!', Spacing::Alone);
}

/// `acc`, then the arguments that join the owner, `/` and the literal `lit` into the id.
pub open spec fn id_args(acc: Seq<TokenTree>, lit: Seq<char>) -> Seq<TokenTree> {
    with_path_sep(acc.push(word("crate"@))).push(word("EXTENSION_NAME"@)).push(mark(',', Spacing::Alone)).push(TokenTree::Literal("\"/\""@, CALL_SITE)).push(mark(',', Spacing::Alone)).push(TokenTree::Literal(lit, CALL_SITE))
}

fn write_id_args(v: &mut Vec<Token>, lit: String)
    ensures
        trees(final(v)@) == id_args(trees(old(v)@), lit@),
{
    push_word(v, "crate");
    push_path_sep(v);
    push_word(v, "EXTENSION_NAME");
    push_mark(v, ',', Spacing::Alone);
    push_literal(v, String::from_str("\"/\""));
    push_mark(v, ',', Spacing::Alone);
    push_literal(v, lit);
}

/// `acc`, then `->` (its two characters at `a1` and `a2`) and a pinned, boxed future whose output is `r`, each `>` written alone.
pub open spec fn return_part(acc: Seq<TokenTree>, r: Seq<TokenTree>, a1: u64, a2: u64) -> Seq<TokenTree> {
    (with_path_sep(with_path_sep(with_path_sep(with_path_sep(with_path_sep(with_path_sep(acc.push(TokenTree::Punct('-', Spacing::Joint, a1)).push(TokenTree::Punct('>', Spacing::Alone, a2))).push(word("std"@))).push(word("pin"@))).push(word("Pin"@)).push(mark('<', Spacing::Alone)).push(word("Box"@)).push(mark('<', Spacing::Alone)).push(word("dyn"@))).push(word("std"@))).push(word("future"@))).push(word("Future"@)).push(mark('<', Spacing::Alone)).push(word("Output"@)).push(mark('=', Spacing::Alone)) + r).push(mark('>', Spacing::Alone)).push(mark('>', Spacing::Alone)).push(mark('>', Spacing::Alone))
}

fn write_return_part(v: &mut Vec<Token>, r: Vec<Token>, a1: u64, a2: u64)
    ensures
        trees(final(v)@) == return_part(trees(old(v)@), trees(r@), a1, a2),
{
    push_punct_at(v, '-', Spacing::Joint, a1);
    push_punct_at(v, '>', Spacing::Alone, a2);
    push_path_sep(v);
    push_word(v, "std");
    push_path_sep(v);
    push_word(v, "pin");
    push_path_sep(v);
    push_word(v, "Pin");
    push_mark(v, '<', Spacing::Alone);
    push_word(v, "Box");
    push_mark(v, '<', Spacing::Alone);
    push_word(v, "dyn");
    push_path_sep(v);
    push_word(v, "std");
    push_path_sep(v);
    push_word(v, "future");
    push_path_sep(v);
    push_word(v, "Future");
    push_mark(v, '<', Spacing::Alone);
    push_word(v, "Output");
    push_mark(v, '=', Spacing::Alone);
    append_tokens(v, r);
    push_mark(v, '>', Spacing::Alone);
    push_mark(v, '>', Spacing::Alone);
    push_mark(v, '>', Spacing::Alone);
}

/// `acc`, then the statement that binds `name`, written at `span`, to the operation's input.
pub open spec fn binding_part(acc: Seq<TokenTree>, name: Seq<char>, span: u64) -> Seq<TokenTree> {
    acc.push(word("let"@)).push(TokenTree::Ident(name, span)).push(mark('=', Spacing::Alone)).push(word("tnn_operation_context"@)).push(mark('.', Spacing::Alone)).push(word("input"@)).push(mark(';', Spacing::Alone))
}

fn write_binding_part(v: &mut Vec<Token>, name: String, span: u64)
    ensures
        trees(final(v)@) == binding_part(trees(old(v)@), name@, span),
{
    push_word(v, "let");
    push_ident(v, name, span);
    push_mark(v, '=', Spacing::Alone);
    push_word(v, "tnn_operation_context");
    push_mark(v, '.', Spacing::Alone);
    push_word(v, "input");
    push_mark(v, ';', Spacing::Alone);
}

/// `acc`, then `async move` at `span` and the block.
pub open spec fn async_block(acc: Seq<TokenTree>, block: TokenTree, span: u64) -> Seq<TokenTree> {
    acc.push(TokenTree::Ident("async"@, span)).push(TokenTree::Ident("move"@, span)).push(block)
}

fn write_async_block(v: &mut Vec<Token>, block: Token, span: u64)
    ensures
        trees(final(v)@) == async_block(trees(old(v)@), block.tree(), span),
{
    push_word_at(v, "async", span);
    push_word_at(v, "move", span);
    push_token(v, block);
}

/// `acc`, then the path of `Box::pin` at `span`.
pub open spec fn boxed_pin(acc: Seq<TokenTree>, span: u64) -> Seq<TokenTree> {
    with_path_sep_at(with_path_sep_at(with_path_sep_at(with_path_sep_at(acc, span).push(TokenTree::Ident("std"@, span)), span).push(TokenTree::Ident("boxed"@, span)), span).push(TokenTree::Ident("Box"@, span)), span).push(TokenTree::Ident("pin"@, span))
}

fn write_boxed_pin(v: &mut Vec<Token>, span: u64)
    ensures
        trees(final(v)@) == boxed_pin(trees(old(v)@), span),
{
    push_path_sep_at(v, span);
    push_word_at(v, "std", span);
    push_path_sep_at(v, span);
    push_word_at(v, "boxed", span);
    push_path_sep_at(v, span);
    push_word_at(v, "Box", span);
    push_path_sep_at(v, span);
    push_word_at(v, "pin", span);
}

/// `acc`, then `fn` at `fn_span` and the function's name at `span`.
pub open spec fn fn_name(acc: Seq<TokenTree>, name: Seq<char>, span: u64, fn_span: u64) -> Seq<TokenTree> {
    acc.push(TokenTree::Ident("fn"@, fn_span)).push(TokenTree::Ident(name, span))
}

fn write_fn_name(v: &mut Vec<Token>, name: String, span: u64, fn_span: u64)
    ensures
        trees(final(v)@) == fn_name(trees(old(v)@), name@, span, fn_span),
{
    push_word_at(v, "fn", fn_span);
    push_ident(v, name, span);
}


/// Checks the item the attribute is put on and says what it becomes.
pub fn expand(item: OpItem) -> (r: Result<OpPlan, SyntaxError>)
    ensures
        match op_spec(item) {
            Ok(p) => r matches Ok(plan) && plan.view() == p,
            Err(e) => r matches Err(err) && err.view() == e,
        },
{
    match item {
        OpItem::Function(sig) => expand_operation_function(sig),
        OpItem::Other { span } => Err(error_at(span, "op can only be used on a function")),
    }
}

} // verus!
