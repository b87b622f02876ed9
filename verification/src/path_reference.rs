//! References to extension operations.
//!
//! An operation is written as a function `greet` and published as a
//! constant `GREET`. A reference to the function, a path such as
//! `ops::greet` or `::ops::greet`, is turned into a reference to its
//! constant, `ops::GREET`: the path is kept and its last segment is written
//! in upper case.

use vstd::prelude::*;
use crate::tokens::{quoted_char_message, spec_to_uppercase, to_uppercase, SyntaxError, Token};

verus! {

/// How far a path has been read.
#[derive(Clone, Copy, Debug, PartialEq, Eq, Structural)]
pub enum ReferenceState {
    /// Nothing read yet.
    Start,
    /// A first `:` read.
    Colon,
    /// A `::` read.
    PathSep,
    /// A segment read.
    Ident,
}

/// The error for a token that is not the one expected.
pub open spec fn unexpected(t: Token, expected: Seq<char>) -> (u64, Seq<char>) {
    match t {
        Token::Group { span, .. } => (span, "unexpected group, expected "@ + expected),
        Token::Literal { span, .. } => (span, "unexpected literal, expected "@ + expected),
        Token::Ident { span, .. } => (span, "unexpected identifier, expected "@ + expected),
        Token::Punct { ch, span, .. } => (
            span,
            "unexpected punctuation '"@ + seq![ch] + "', expected "@ + expected,
        ),
    }
}

/// Reading one more token of a path.
pub open spec fn reference_step(state: ReferenceState, t: Token) -> Result<ReferenceState, (u64, Seq<char>)> {
    match state {
        ReferenceState::Start => if t is Ident {
            Ok(ReferenceState::Ident)
        } else if t.is_punct(':') {
            Ok(ReferenceState::Colon)
        } else {
            Err(unexpected(t, "punctuation ':'"@))
        },
        ReferenceState::Colon => if t.is_punct(':') {
            Ok(ReferenceState::PathSep)
        } else {
            Err(unexpected(t, "punctuation ':'"@))
        },
        ReferenceState::PathSep => if t is Ident {
            Ok(ReferenceState::Ident)
        } else {
            Err(unexpected(t, "identifier"@))
        },
        ReferenceState::Ident => if t.is_punct(':') {
            Ok(ReferenceState::Colon)
        } else {
            Err(unexpected(t, "punctuation ':'"@))
        },
    }
}

/// Reading the first `n` tokens: the state reached, or the first error.
pub open spec fn reference_run(tokens: Seq<Token>, n: int) -> Result<ReferenceState, (u64, Seq<char>)>
    decreases n,
{
    if n <= 0 {
        Ok(ReferenceState::Start)
    } else {
        match reference_run(tokens, n - 1) {
            Err(e) => Err(e),
            Ok(state) => reference_step(state, tokens[n - 1]),
        }
    }
}

/// The error for input that ends where a path cannot end.
pub open spec fn reference_end_error(tokens: Seq<Token>, state: ReferenceState, input_span: u64) -> (u64, Seq<char>) {
    match state {
        ReferenceState::Colon => (
            tokens.last().spec_span(),
            "unexpected end of input, expected punctuation ':'"@,
        ),
        ReferenceState::PathSep => (
            tokens.last().spec_span(),
            "unexpected end of input, expected identifier"@,
        ),
        _ => (input_span, "unexpected end of input, expected identifier or punctuation ':'"@),
    }
}

fn unexpected_token(t: &Token, expected: &str) -> (e: SyntaxError)
    ensures
        e.view() == unexpected(*t, expected@),
{
    match t {
        Token::Group { span, .. } => {
            let mut m = String::from_str("unexpected group, expected ");
            m.append(expected);
            SyntaxError { span: *span, message: m }
        },
        Token::Literal { span, .. } => {
            let mut m = String::from_str("unexpected literal, expected ");
            m.append(expected);
            SyntaxError { span: *span, message: m }
        },
        Token::Ident { span, .. } => {
            let mut m = String::from_str("unexpected identifier, expected ");
            m.append(expected);
            SyntaxError { span: *span, message: m }
        },
        Token::Punct { ch, span, .. } => {
            let mut m = quoted_char_message("unexpected punctuation '", *ch, "', expected ");
            m.append(expected);
            SyntaxError { span: *span, message: m }
        },
    }
}

fn is_colon(t: &Token) -> (b: bool)
    ensures
        b == t.is_punct(':'),
{
    match t {
        Token::Punct { ch, .. } => *ch == ':',
        _ => false,
    }
}

fn step(state: ReferenceState, t: &Token) -> (r: Result<ReferenceState, SyntaxError>)
    ensures
        match r {
            Ok(next) => reference_step(state, *t) == Ok::<ReferenceState, (u64, Seq<char>)>(next),
            Err(e) => reference_step(state, *t) == Err::<ReferenceState, (u64, Seq<char>)>(e.view()),
        },
{
    match state {
        ReferenceState::Start => {
            if let Token::Ident { .. } = t {
                Ok(ReferenceState::Ident)
            } else if is_colon(t) {
                Ok(ReferenceState::Colon)
            } else {
                Err(unexpected_token(t, "punctuation ':'"))
            }
        },
        ReferenceState::Colon => {
            if is_colon(t) {
                Ok(ReferenceState::PathSep)
            } else {
                Err(unexpected_token(t, "punctuation ':'"))
            }
        },
        ReferenceState::PathSep => {
            if let Token::Ident { .. } = t {
                Ok(ReferenceState::Ident)
            } else {
                Err(unexpected_token(t, "identifier"))
            }
        },
        ReferenceState::Ident => {
            if is_colon(t) {
                Ok(ReferenceState::Colon)
            } else {
                Err(unexpected_token(t, "punctuation ':'"))
            }
        },
    }
}

/// Turns a reference to an operation's function into a reference to its
/// constant: the tokens are kept, and the last one, a segment, is written
/// in upper case. The tokens must form a path, `::` separated segments with
/// an optional leading `::`; otherwise the first token that does not fit is
/// reported, or the end of the input when it ends too early (at
/// `input_span` when the input is empty).
pub fn extension_operation_function_reference(tokens: Vec<Token>, input_span: u64) -> (r: Result<Vec<Token>, SyntaxError>)
    ensures
        match reference_run(tokens@, tokens@.len() as int) {
            Err(e) => r matches Err(err) && err.view() == e,
            Ok(ReferenceState::Ident) => r matches Ok(out) && {
                &&& out@.len() == tokens@.len()
                &&& out@.drop_last() == tokens@.drop_last()
                &&& tokens@.last() matches Token::Ident { name, span }
                &&& out@.last() matches Token::Ident { name: upper, span: upper_span }
                &&& upper@ == spec_to_uppercase(name@)
                &&& upper_span == span
            },
            Ok(state) => r matches Err(err) && err.view() == reference_end_error(tokens@, state, input_span),
        },
{
    let n = tokens.len();
    let mut state = ReferenceState::Start;
    let mut i: usize = 0;
    while i < n
        invariant
            n == tokens@.len(),
            i <= n,
            reference_run(tokens@, i as int) == Ok::<ReferenceState, (u64, Seq<char>)>(state),
        decreases n - i,
    {
        match step(state, &tokens[i]) {
            Ok(next) => state = next,
            Err(e) => {
                proof {
                    lemma_run_error_persists(tokens@, i as int + 1, n as int);
                }
                return Err(e);
            },
        }
        i = i + 1;
    }
    match state {
        ReferenceState::Start => Err(
            SyntaxError {
                span: input_span,
                message: String::from_str("unexpected end of input, expected identifier or punctuation ':'"),
            },
        ),
        ReferenceState::Colon => Err(
            SyntaxError {
                span: tokens[n - 1].span(),
                message: String::from_str("unexpected end of input, expected punctuation ':'"),
            },
        ),
        ReferenceState::PathSep => Err(
            SyntaxError {
                span: tokens[n - 1].span(),
                message: String::from_str("unexpected end of input, expected identifier"),
            },
        ),
        ReferenceState::Ident => {
            proof {
                lemma_ident_state_ends_with_ident(tokens@, n as int);
            }
            let ghost before = tokens@;
            let mut out = tokens;
            match out.pop() {
                Some(Token::Ident { name, span }) => {
                    out.push(Token::Ident { name: to_uppercase(name.as_str()), span });
                    proof {
                        assert(out@.drop_last() =~= before.drop_last());
                    }
                    Ok(out)
                },
                _ => Err(
                    SyntaxError {
                        span: input_span,
                        message: String::from_str("unexpected end of input, expected identifier or punctuation ':'"),
                    },
                ),
            }
        },
    }
}

/// Once reading stops with an error, reading further tokens keeps it.
proof fn lemma_run_error_persists(tokens: Seq<Token>, i: int, n: int)
    requires
        0 <= i <= n,
        reference_run(tokens, i) is Err,
    ensures
        reference_run(tokens, n) == reference_run(tokens, i),
    decreases n - i,
{
    if i < n {
        lemma_run_error_persists(tokens, i + 1, n);
    }
}

/// Reading ends after a segment only when the last token is one.
proof fn lemma_ident_state_ends_with_ident(tokens: Seq<Token>, n: int)
    requires
        0 < n <= tokens.len(),
        reference_run(tokens, n) == Ok::<ReferenceState, (u64, Seq<char>)>(ReferenceState::Ident),
    ensures
        tokens[n - 1] is Ident,
{
}

/// Where the first segment of a path starts: after a leading `::`, if any.
pub open spec fn path_start(tokens: Seq<Token>) -> int {
    if tokens.len() > 0 && tokens[0].is_punct(':') {
        2
    } else {
        0
    }
}

/// Whether the token at position `j` fits a path whose first segment
/// starts at `o`: a `:` before it, then a segment and two `:` in turn.
pub open spec fn path_token_fits(tokens: Seq<Token>, o: int, j: int) -> bool {
    if j < o {
        tokens[j].is_punct(':')
    } else if (j - o) % 3 == 0 {
        tokens[j] is Ident
    } else {
        tokens[j].is_punct(':')
    }
}

/// Whether the tokens form a path: segments separated by `::`, with an
/// optional leading `::`.
pub open spec fn is_path(tokens: Seq<Token>) -> bool {
    let o = path_start(tokens);
    &&& tokens.len() > o
    &&& (tokens.len() - o) % 3 == 1
    &&& forall|j: int| 0 <= j < tokens.len() ==> #[trigger] path_token_fits(tokens, o, j)
}

/// The state reached after `n` tokens of a path starting its segments at
/// `o`.
pub open spec fn path_state(o: int, n: int) -> ReferenceState {
    if n == 0 {
        ReferenceState::Start
    } else if n <= o {
        if n == 1 {
            ReferenceState::Colon
        } else {
            ReferenceState::PathSep
        }
    } else if (n - o) % 3 == 1 {
        ReferenceState::Ident
    } else if (n - o) % 3 == 2 {
        ReferenceState::Colon
    } else {
        ReferenceState::PathSep
    }
}

proof fn lemma_run_prefix(tokens: Seq<Token>, n: int)
    requires
        0 <= n <= tokens.len(),
    ensures
        reference_run(tokens, n) is Ok <==> forall|j: int| 0 <= j < n ==> #[trigger] path_token_fits(
            tokens,
            path_start(tokens),
            j,
        ),
        reference_run(tokens, n) is Ok ==> reference_run(tokens, n) == Ok::<ReferenceState, (u64, Seq<char>)>(
            path_state(path_start(tokens), n),
        ),
    decreases n,
{
    let o = path_start(tokens);
    if n > 0 {
        lemma_run_prefix(tokens, n - 1);
        let t = tokens[n - 1];
        if reference_run(tokens, n - 1) is Ok {
            let st = path_state(o, n - 1);
            assert(reference_run(tokens, n) == reference_step(st, t));
            if n - 1 == 0 {
                if o == 2 {
                    assert(t.is_punct(':'));
                } else {
                    assert(!t.is_punct(':'));
                }
            }
            if reference_run(tokens, n) is Ok {
                assert(path_token_fits(tokens, o, n - 1));
            } else {
                assert(!path_token_fits(tokens, o, n - 1));
            }
        } else {
            assert(!(forall|j: int| 0 <= j < n - 1 ==> #[trigger] path_token_fits(tokens, o, j)));
            let j = choose|j: int| 0 <= j < n - 1 && !#[trigger] path_token_fits(tokens, o, j);
            assert(!path_token_fits(tokens, o, j));
        }
    }
}

/// A reference is accepted exactly when its tokens form a path: segments
/// separated by `::`, with an optional leading `::`.
pub proof fn law_reference_accepts_exactly_paths(tokens: Seq<Token>)
    ensures
        (reference_run(tokens, tokens.len() as int) == Ok::<ReferenceState, (u64, Seq<char>)>(
            ReferenceState::Ident,
        )) <==> is_path(tokens),
{
    lemma_run_prefix(tokens, tokens.len() as int);
    let o = path_start(tokens);
    let n = tokens.len() as int;
    if is_path(tokens) {
        assert(path_state(o, n) == ReferenceState::Ident);
    }
    if reference_run(tokens, n) == Ok::<ReferenceState, (u64, Seq<char>)>(ReferenceState::Ident) {
        assert(path_state(o, n) == ReferenceState::Ident);
        if n <= o {
            assert(n >= 1);
        }
    }
}

} // verus!
