//! Source tokens, as the extension macros see them.
//!
//! A macro receives a stream of tokens; the grammars of this crate read them
//! in this form. Spans are numbers that the host hands out, one per place in
//! the source, so that an error can point where a token stood.

use vstd::prelude::*;

verus! {

/// The span the host gives to tokens that stand for the macro call itself.
pub const CALL_SITE: u64 = 0;

/// How a group of tokens is delimited.
#[derive(Clone, Copy, Debug, PartialEq, Eq, Structural)]
pub enum Delimiter {
    Parenthesis,
    Brace,
    Bracket,
    /// No delimiter: a group the source does not show.
    Invisible,
}

/// Whether a punctuation character is followed at once by another one.
#[derive(Clone, Copy, Debug, PartialEq, Eq, Structural)]
pub enum Spacing {
    Alone,
    Joint,
}

/// A token: a delimited group, an identifier, a punctuation character or a
/// literal, kept as the text it was written with.
pub enum Token {
    Group { delimiter: Delimiter, stream: Vec<Token>, span: u64 },
    Ident { name: String, span: u64 },
    Punct { ch: char, spacing: Spacing, span: u64 },
    Literal { text: String, span: u64 },
}

impl Token {
    /// Where the token stands.
    pub open spec fn spec_span(&self) -> u64 {
        match self {
            Token::Group { span, .. } => *span,
            Token::Ident { span, .. } => *span,
            Token::Punct { span, .. } => *span,
            Token::Literal { span, .. } => *span,
        }
    }

    /// Where the token stands.
    pub fn span(&self) -> (s: u64)
        ensures
            s == self.spec_span(),
    {
        match self {
            Token::Group { span, .. } => *span,
            Token::Ident { span, .. } => *span,
            Token::Punct { span, .. } => *span,
            Token::Literal { span, .. } => *span,
        }
    }

    /// Whether the token is the punctuation character `c`.
    pub open spec fn is_punct(&self, c: char) -> bool {
        self matches Token::Punct { ch, .. } && ch == c
    }
}

/// What a token is, without the contents of a group.
pub enum TokenView {
    Group(Delimiter, u64),
    Ident(Seq<char>, u64),
    Punct(char, Spacing, u64),
    Literal(Seq<char>, u64),
}

impl Token {
    pub open spec fn view(&self) -> TokenView {
        match self {
            Token::Group { delimiter, span, .. } => TokenView::Group(*delimiter, *span),
            Token::Ident { name, span } => TokenView::Ident(name@, *span),
            Token::Punct { ch, spacing, span } => TokenView::Punct(*ch, *spacing, *span),
            Token::Literal { text, span } => TokenView::Literal(text@, *span),
        }
    }
}

/// The views of a sequence of tokens.
pub open spec fn tokens_view(tokens: Seq<Token>) -> Seq<TokenView> {
    tokens.map_values(token_view())
}

/// The view of a token, as a function.
pub open spec fn token_view() -> spec_fn(Token) -> TokenView {
    |t: Token| t.view()
}

/// Pushing a token pushes its view.
pub proof fn lemma_tokens_view_push(tokens: Seq<Token>, t: Token)
    ensures
        tokens_view(tokens.push(t)) == tokens_view(tokens).push(t.view()),
{
    tokens.lemma_push_map_commute(token_view(), t);
}

/// A token with the contents of its group, if it is one.
pub enum TokenTree {
    Group(Delimiter, Seq<TokenTree>, u64),
    Ident(Seq<char>, u64),
    Punct(char, Spacing, u64),
    Literal(Seq<char>, u64),
}

impl Token {
    /// The token with the contents of its group.
    pub open spec fn tree(&self) -> TokenTree
        decreases *self, 0int,
    {
        match self {
            Token::Group { delimiter, stream, span } => TokenTree::Group(*delimiter, trees(stream@), *span),
            Token::Ident { name, span } => TokenTree::Ident(name@, *span),
            Token::Punct { ch, spacing, span } => TokenTree::Punct(*ch, *spacing, *span),
            Token::Literal { text, span } => TokenTree::Literal(text@, *span),
        }
    }
}

/// The trees of a sequence of tokens.
pub open spec fn trees(tokens: Seq<Token>) -> Seq<TokenTree>
    decreases tokens, tokens.len(),
{
    if tokens.len() == 0 {
        Seq::empty()
    } else {
        trees(tokens.drop_last()).push(tokens.last().tree())
    }
}

/// The trees of a pushed sequence.
pub proof fn lemma_trees_push(tokens: Seq<Token>, t: Token)
    ensures
        trees(tokens.push(t)) == trees(tokens).push(t.tree()),
{
    assert(tokens.push(t).drop_last() =~= tokens);
}

/// The trees of a concatenation.
pub proof fn lemma_trees_add(a: Seq<Token>, b: Seq<Token>)
    ensures
        trees(a + b) == trees(a) + trees(b),
    decreases b.len(),
{
    if b.len() == 0 {
        assert(a + b =~= a);
        assert(trees(a) + trees(b) =~= trees(a));
    } else {
        lemma_trees_add(a, b.drop_last());
        assert((a + b).drop_last() =~= a + b.drop_last());
        assert(trees(a) + trees(b) =~= (trees(a) + trees(b.drop_last())).push(b.last().tree()));
    }
}

/// An identifier written by a macro, at the call site.
pub open spec fn word(name: Seq<char>) -> TokenTree {
    TokenTree::Ident(name, CALL_SITE)
}

/// A punctuation character written by a macro, at the call site.
pub open spec fn mark(c: char, spacing: Spacing) -> TokenTree {
    TokenTree::Punct(c, spacing, CALL_SITE)
}

/// `acc` followed by a `::` written by a macro.
pub open spec fn with_path_sep(acc: Seq<TokenTree>) -> Seq<TokenTree> {
    acc.push(mark(':', Spacing::Joint)).push(mark(':', Spacing::Alone))
}

/// `acc` followed by a `::` at `span`.
pub open spec fn with_path_sep_at(acc: Seq<TokenTree>, span: u64) -> Seq<TokenTree> {
    acc.push(TokenTree::Punct(':', Spacing::Joint, span)).push(TokenTree::Punct(':', Spacing::Alone, span))
}

/// Appends an identifier at `span`.
pub fn push_word_at(v: &mut Vec<Token>, name: &str, span: u64)
    ensures
        trees(final(v)@) == trees(old(v)@).push(TokenTree::Ident(name@, span)),
{
    push_ident(v, String::from_str(name), span);
}

/// Appends a punctuation character at `span`.
pub fn push_punct_at(v: &mut Vec<Token>, c: char, spacing: Spacing, span: u64)
    ensures
        trees(final(v)@) == trees(old(v)@).push(TokenTree::Punct(c, spacing, span)),
{
    let t = Token::Punct { ch: c, spacing, span };
    proof {
        lemma_trees_push(v@, t);
    }
    v.push(t);
}

/// Appends a `::` at `span`.
pub fn push_path_sep_at(v: &mut Vec<Token>, span: u64)
    ensures
        trees(final(v)@) == with_path_sep_at(trees(old(v)@), span),
{
    push_punct_at(v, ':', Spacing::Joint, span);
    push_punct_at(v, ':', Spacing::Alone, span);
}

/// Appends an identifier at the call site.
pub fn push_word(v: &mut Vec<Token>, name: &str)
    ensures
        trees(final(v)@) == trees(old(v)@).push(word(name@)),
{
    let t = Token::Ident { name: String::from_str(name), span: CALL_SITE };
    proof {
        lemma_trees_push(v@, t);
    }
    v.push(t);
}

/// Appends an identifier.
pub fn push_ident(v: &mut Vec<Token>, name: String, span: u64)
    ensures
        trees(final(v)@) == trees(old(v)@).push(TokenTree::Ident(name@, span)),
{
    let t = Token::Ident { name, span };
    proof {
        lemma_trees_push(v@, t);
    }
    v.push(t);
}

/// Appends a punctuation character at the call site.
pub fn push_mark(v: &mut Vec<Token>, c: char, spacing: Spacing)
    ensures
        trees(final(v)@) == trees(old(v)@).push(mark(c, spacing)),
{
    let t = Token::Punct { ch: c, spacing, span: CALL_SITE };
    proof {
        lemma_trees_push(v@, t);
    }
    v.push(t);
}

/// Appends a `::` at the call site.
pub fn push_path_sep(v: &mut Vec<Token>)
    ensures
        trees(final(v)@) == with_path_sep(trees(old(v)@)),
{
    push_mark(v, ':', Spacing::Joint);
    push_mark(v, ':', Spacing::Alone);
}

/// Appends a literal at the call site.
pub fn push_literal(v: &mut Vec<Token>, text: String)
    ensures
        trees(final(v)@) == trees(old(v)@).push(TokenTree::Literal(text@, CALL_SITE)),
{
    let t = Token::Literal { text, span: CALL_SITE };
    proof {
        lemma_trees_push(v@, t);
    }
    v.push(t);
}

/// Appends a group.
pub fn push_group(v: &mut Vec<Token>, delimiter: Delimiter, stream: Vec<Token>, span: u64)
    ensures
        trees(final(v)@) == trees(old(v)@).push(TokenTree::Group(delimiter, trees(stream@), span)),
{
    let t = Token::Group { delimiter, stream, span };
    proof {
        lemma_trees_push(v@, t);
    }
    v.push(t);
}

/// Appends a token.
pub fn push_token(v: &mut Vec<Token>, t: Token)
    ensures
        trees(final(v)@) == trees(old(v)@).push(t.tree()),
{
    proof {
        lemma_trees_push(v@, t);
    }
    v.push(t);
}

/// Appends tokens.
pub fn append_tokens(v: &mut Vec<Token>, w: Vec<Token>)
    ensures
        trees(final(v)@) == trees(old(v)@) + trees(w@),
{
    let mut w = w;
    proof {
        lemma_trees_add(v@, w@);
    }
    v.append(&mut w);
}

/// A copy of a token, group contents included.
pub fn copy_token(t: &Token) -> (r: Token)
    ensures
        r.tree() == t.tree(),
    decreases *t, 0int,
{
    match t {
        Token::Group { delimiter, stream, span } => Token::Group {
            delimiter: *delimiter,
            stream: copy_tokens(stream),
            span: *span,
        },
        Token::Ident { name, span } => Token::Ident { name: name.clone(), span: *span },
        Token::Punct { ch, spacing, span } => Token::Punct { ch: *ch, spacing: *spacing, span: *span },
        Token::Literal { text, span } => Token::Literal { text: text.clone(), span: *span },
    }
}

/// A copy of tokens, group contents included.
pub fn copy_tokens(v: &Vec<Token>) -> (r: Vec<Token>)
    ensures
        trees(r@) == trees(v@),
    decreases *v, 1int,
{
    let mut r: Vec<Token> = Vec::new();
    let n = v.len();
    let mut i: usize = 0;
    while i < n
        invariant
            n == v@.len(),
            i <= n,
            trees(r@) == trees(v@.take(i as int)),
        decreases n - i,
    {
        proof {
            assert(decreases_to!(*v => v@[i as int]));
        }
        let t = copy_token(&v[i]);
        proof {
            lemma_trees_push(r@, t);
            assert(v@.take(i as int + 1).drop_last() =~= v@.take(i as int));
        }
        r.push(t);
        i = i + 1;
    }
    proof {
        assert(v@.take(n as int) =~= v@);
    }
    r
}

/// An error to report at a place in the source.
pub struct SyntaxError {
    pub span: u64,
    pub message: String,
}

impl SyntaxError {
    /// The place and the message.
    pub open spec fn view(&self) -> (u64, Seq<char>) {
        (self.span, self.message@)
    }
}

/// Calls `String::push`. Trusted: the string afterwards is the string
/// before with the character appended.
#[verifier::external_body]
pub(crate) fn push_char(s: &mut String, c: char)
    ensures
        final(s)@ == old(s)@.push(c),
{
    s.push(c);
}

/// What `str::to_uppercase` returns for `s`.
pub uninterp spec fn spec_to_uppercase(s: Seq<char>) -> Seq<char>;

/// Calls `str::to_uppercase`. Trusted: the result is `spec_to_uppercase`
/// of the argument.
#[verifier::external_body]
pub(crate) fn to_uppercase(s: &str) -> (r: String)
    ensures
        r@ == spec_to_uppercase(s@),
{
    s.to_uppercase()
}

/// What `syn` makes of a literal written as `text`, read as a string
/// literal with proc-macro2's own lexer: its value, or the message of the
/// error when it is not one.
pub uninterp spec fn spec_lit_str(text: Seq<char>) -> Result<Seq<char>, Seq<char>>;

/// Parses the literal written as `text` with `syn::parse_str::<syn::LitStr>`
/// and returns `LitStr::value`, or the message of syn's error. The text is
/// lexed by proc-macro2's own lexer: `proc_macro2::fallback::force` selects
/// it for the call and `unforce` gives the choice back, so the compiler's
/// lexer is not used even inside a macro. The choice is a process-wide
/// setting: while the call runs, proc-macro2 used on another thread also
/// gets its own lexer, so the call is meant for a single-threaded macro
/// expansion. Trusted: the result is
/// `spec_lit_str` of the text, and a text that syn accepts as a string
/// literal holds at least the literal's two quotes.
#[verifier::external_body]
pub(crate) fn lit_str_value(text: &str) -> (r: Result<String, String>)
    ensures
        r is Ok ==> text@.len() >= 2,
        match r {
            Ok(value) => spec_lit_str(text@) == Ok::<Seq<char>, Seq<char>>(value@),
            Err(message) => spec_lit_str(text@) == Err::<Seq<char>, Seq<char>>(message@),
        },
{
    proc_macro2::fallback::force();
    let r = syn::parse_str::<syn::LitStr>(text).map(|lit| lit.value()).map_err(|e| e.to_string());
    proc_macro2::fallback::unforce();
    r
}

/// A message made of a text, a character between quotes, and a text.
pub fn quoted_char_message(before: &str, c: char, after: &str) -> (m: String)
    ensures
        m@ == before@ + seq![c] + after@,
{
    let mut m = String::from_str(before);
    push_char(&mut m, c);
    m.append(after);
    m
}

} // verus!
