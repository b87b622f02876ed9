use tnn::extension_def::{expand, parse, ParseProp};
use tnn::extension_macro::{DependenciesState, IdentToken, OperationsState};
use tnn::op_macro::{
    expand as expand_op, expand_operation_function, FnVisibility, OpItem, OpParam, OpPattern,
    OpSignature, OpVisibility,
};
use tnn::path_reference::extension_operation_function_reference;
use tnn::tokens::{Delimiter, Spacing, Token, CALL_SITE};

fn ident(name: &str, span: u64) -> Token {
    Token::Ident { name: name.to_string(), span }
}

fn punct(ch: char, span: u64) -> Token {
    Token::Punct { ch, spacing: Spacing::Alone, span }
}

fn joint(ch: char, span: u64) -> Token {
    Token::Punct { ch, spacing: Spacing::Joint, span }
}

fn lit(text: &str, span: u64) -> Token {
    Token::Literal { text: text.to_string(), span }
}

fn group(delimiter: Delimiter, stream: Vec<Token>, span: u64) -> Token {
    Token::Group { delimiter, stream, span }
}

fn ident_name(t: &Token) -> (String, u64) {
    match t {
        Token::Ident { name, span } => (name.clone(), *span),
        _ => panic!("not an identifier"),
    }
}

fn punct_char(t: &Token) -> char {
    match t {
        Token::Punct { ch, .. } => *ch,
        _ => panic!("not a punctuation"),
    }
}

/// The input of the showcase extension:
/// `dependencies = { tnn = "1", my_cool_ext = optional "^1" }, ops = [ops::greet, ops::hello,]`
fn showcase_input() -> Vec<Token> {
    vec![
        ident("dependencies", 1),
        punct('=', 2),
        group(
            Delimiter::Brace,
            vec![
                ident("tnn", 4),
                punct('=', 5),
                lit("\"1\"", 6),
                punct(',', 7),
                ident("my_cool_ext", 8),
                punct('=', 9),
                ident("optional", 10),
                lit("\"^1\"", 11),
            ],
            3,
        ),
        punct(',', 12),
        ident("ops", 13),
        punct('=', 14),
        group(
            Delimiter::Bracket,
            vec![
                ident("ops", 16),
                joint(':', 17),
                punct(':', 18),
                ident("greet", 19),
                punct(',', 20),
                ident("ops", 21),
                joint(':', 22),
                punct(':', 23),
                ident("hello", 24),
                punct(',', 25),
            ],
            15,
        ),
    ]
}

#[test]
fn parse_showcase_extension() {
    let def = match parse(showcase_input()) {
        Ok(d) => d,
        Err(e) => panic!("unexpected error {}", e.message),
    };
    assert!(def.name.is_none());
    assert!(def.version.is_none());
    let deps = def.dependencies.as_ref().unwrap();
    assert_eq!(deps.len(), 2);
    assert_eq!(deps[0].name_ident.name, "tnn");
    assert!(deps[0].optional_ident.is_none());
    assert_eq!(deps[0].version_req_literal.value, "1");
    assert_eq!(deps[0].version_req_literal.text, "\"1\"");
    assert_eq!(deps[1].name_ident.name, "my_cool_ext");
    assert_eq!(deps[1].optional_ident.as_ref().unwrap().name, "optional");
    assert_eq!(deps[1].version_req_literal.value, "^1");
    let ops = def.ops.as_ref().unwrap();
    assert_eq!(ops.len(), 2);
    assert_eq!(ops[0].function_handle.len(), 4);
    assert_eq!(ident_name(&ops[0].function_handle[0]), ("ops".to_string(), 16));
    assert_eq!(punct_char(&ops[0].function_handle[1]), ':');
    assert_eq!(punct_char(&ops[0].function_handle[2]), ':');
    assert_eq!(ident_name(&ops[0].function_handle[3]), ("greet".to_string(), 19));
    assert_eq!(ident_name(&ops[0].definition_handle[3]), ("GREET".to_string(), CALL_SITE));
    assert_eq!(ident_name(&ops[1].function_handle[3]), ("hello".to_string(), 24));
    assert_eq!(ident_name(&ops[1].definition_handle[3]), ("HELLO".to_string(), CALL_SITE));
}

#[test]
fn expand_showcase_extension() {
    let def = parse(showcase_input()).ok().unwrap();
    let e = expand(def);
    assert!(e.name.is_none());
    assert!(e.version.is_none());
    assert_eq!(e.dependencies.len(), 2);
    assert!(e.dependencies[0].required);
    assert_eq!(e.dependencies[0].name.name, "tnn");
    assert_eq!(e.dependencies[0].version_matcher.value, "1");
    assert!(!e.dependencies[1].required);
    assert_eq!(e.dependencies[1].name.name, "my_cool_ext");
    let init = e.init.unwrap();
    assert_eq!(init.len(), 2);
    assert_eq!(ident_name(&init[1].definition_handle[3]).0, "HELLO");
}

#[test]
fn expand_without_operations_has_no_initializer() {
    let input = vec![
        ident("name", 1),
        punct('=', 2),
        lit("\"greeter\"", 3),
        punct(',', 4),
        ident("version", 5),
        punct('=', 6),
        lit("\"1.2.3\"", 7),
        punct(',', 8),
        ident("dependencies", 9),
        punct('=', 10),
        group(Delimiter::Brace, vec![], 11),
    ];
    let def = parse(input).ok().unwrap();
    assert_eq!(def.name.as_ref().unwrap().value, "greeter");
    assert_eq!(def.version.as_ref().unwrap().value, "1.2.3");
    let e = expand(def);
    assert_eq!(e.name.unwrap().value, "greeter");
    assert_eq!(e.dependencies.len(), 0);
    assert!(e.init.is_none());
}

fn parse_error(input: Vec<Token>) -> (u64, String) {
    match parse(input) {
        Ok(_) => panic!("expected an error"),
        Err(e) => (e.span, e.message),
    }
}

#[test]
fn parse_rejects_unknown_property() {
    assert_eq!(
        parse_error(vec![ident("colour", 7), punct('=', 8)]),
        (7, "Property 'colour' is not valid in this context".to_string())
    );
}

#[test]
fn parse_rejects_repeated_property() {
    let input = vec![
        ident("name", 1),
        punct('=', 2),
        lit("\"a\"", 3),
        punct(',', 4),
        ident("name", 5),
    ];
    assert_eq!(parse_error(input), (5, "Field is already defined".to_string()));
}

#[test]
fn parse_rejects_missing_equal_sign() {
    assert_eq!(
        parse_error(vec![ident("name", 1), punct(':', 2)]),
        (2, "Unexpected token, expected token '='".to_string())
    );
    assert_eq!(
        parse_error(vec![lit("\"x\"", 3)]),
        (3, "Unexpected token, expected identifier".to_string())
    );
}

#[test]
fn parse_rejects_bad_separator() {
    let input = vec![ident("name", 1), punct('=', 2), lit("\"a\"", 3), punct(';', 4)];
    assert_eq!(
        parse_error(input),
        (4, "Unexepcted punctuation ';', expected punctuation ','".to_string())
    );
    let input = vec![ident("name", 1), punct('=', 2), lit("\"a\"", 3), ident("x", 4)];
    assert_eq!(
        parse_error(input),
        (4, "Unexepcted token, expected punctuation ','".to_string())
    );
}

#[test]
fn parse_rejects_early_end() {
    assert_eq!(
        parse_error(vec![ident("name", 1)]),
        (1, "Unexpected end of input, missing token '='".to_string())
    );
    assert_eq!(
        parse_error(vec![ident("name", 1), punct('=', 2)]),
        (2, "Unexpected end of input, missing value".to_string())
    );
}

#[test]
fn parse_rejects_bad_values() {
    assert_eq!(
        parse_error(vec![ident("name", 1), punct('=', 2), ident("a", 3)]),
        (3, "Unexpected token, expected a string literal".to_string())
    );
    let (span, message) = parse_error(vec![ident("name", 1), punct('=', 2), lit("12", 3)]);
    assert_eq!(span, 3);
    assert!(!message.is_empty());
    let (span, message) =
        parse_error(vec![ident("version", 1), punct('=', 2), lit("\"one\"", 3)]);
    assert_eq!(span, 3);
    assert!(message.starts_with("invalid version: "), "{}", message);
}

#[test]
fn parse_of_empty_input_gives_no_property() {
    let def = parse(vec![]).ok().unwrap();
    assert!(def.name.is_none() && def.version.is_none());
    assert!(def.dependencies.is_none() && def.ops.is_none());
}

#[test]
fn from_ident_knows_the_four_properties() {
    let p = |n: &str| ParseProp::from_ident(&IdentToken { name: n.to_string(), span: 9 });
    assert!(matches!(p("name"), Ok(ParseProp::Name)));
    assert!(matches!(p("version"), Ok(ParseProp::Version)));
    assert!(matches!(p("dependencies"), Ok(ParseProp::Dependencies(_))));
    assert!(matches!(p("ops"), Ok(ParseProp::Operations(_))));
    match p("op") {
        Err(e) => {
            assert_eq!(e.span, 9);
            assert_eq!(e.message, "Property 'op' is not valid in this context");
        }
        Ok(_) => panic!("expected an error"),
    }
}

fn deps_error(stream: Vec<Token>) -> (u64, String) {
    let mut s = DependenciesState::new();
    match s.handle_token(&group(Delimiter::Brace, stream, 100)) {
        Ok(()) => panic!("expected an error"),
        Err(e) => (e.span, e.message),
    }
}

#[test]
fn dependencies_errors() {
    let mut s = DependenciesState::new();
    let e = s.handle_token(&ident("x", 1)).err().unwrap();
    assert_eq!((e.span, e.message.as_str()), (1, "unexpected token, expected group"));
    let e = s.handle_token(&group(Delimiter::Bracket, vec![], 2)).err().unwrap();
    assert_eq!(
        (e.span, e.message.as_str()),
        (2, "unexpected punctuation, expected punctuation '{'")
    );
    assert_eq!(deps_error(vec![lit("\"a\"", 3)]), (3, "expected dependency name".to_string()));
    assert_eq!(
        deps_error(vec![ident("a", 3), punct(':', 4)]),
        (4, "expected punctuation '='".to_string())
    );
    assert_eq!(
        deps_error(vec![ident("a", 3), punct('=', 4), ident("required", 5)]),
        (5, "unexpected identifier, expected identifier 'optional'".to_string())
    );
    assert_eq!(
        deps_error(vec![ident("a", 3), punct('=', 4), punct('>', 5)]),
        (5, "unexpected token, expected identifier 'optional' or dependency version".to_string())
    );
    assert_eq!(
        deps_error(vec![ident("a", 3), punct('=', 4), ident("optional", 5), punct('>', 6)]),
        (6, "unexpected token, expected identifier 'optional' or dependency version".to_string())
    );
    let (span, message) = deps_error(vec![ident("a", 3), punct('=', 4), lit("1", 5)]);
    assert_eq!(span, 5);
    assert!(message.starts_with("expected a literal string with dependency version: "));
    let (span, message) = deps_error(vec![ident("a", 3), punct('=', 4), lit("\"not a req\"", 5)]);
    assert_eq!(span, 5);
    assert!(message.starts_with("Invalid version matcher: "), "{}", message);
    assert_eq!(
        deps_error(vec![ident("a", 3), punct('=', 4), lit("\"1\"", 5), punct(';', 6)]),
        (6, "unexpected punctuation ';', expected punctuation ','".to_string())
    );
    assert_eq!(
        deps_error(vec![ident("a", 3), punct('=', 4), lit("\"1\"", 5), ident("b", 6)]),
        (6, "unexpected token, expected punctuation ','".to_string())
    );
}

#[test]
fn optional_marker_may_be_repeated() {
    let mut s = DependenciesState::new();
    let stream = vec![ident("a", 3), punct('=', 4), ident("optional", 5), ident("optional", 6), lit("\"1\"", 7)];
    assert!(s.handle_token(&group(Delimiter::Brace, stream, 100)).is_ok());
    let defs = s.take_definitions();
    assert_eq!(defs.len(), 1);
    assert_eq!(defs[0].optional_ident.as_ref().unwrap().span, 6);
}

#[test]
fn dependencies_are_declared_once() {
    let stream = vec![
        ident("a", 3),
        punct('=', 4),
        lit("\"1\"", 5),
        punct(',', 6),
        ident("a", 7),
    ];
    assert_eq!(deps_error(stream), (7, "dependency already declared".to_string()));
}

fn ops_error(stream: Vec<Token>) -> (u64, String) {
    let mut s = OperationsState::new();
    match s.handle_token(&group(Delimiter::Bracket, stream, 100)) {
        Ok(()) => panic!("expected an error"),
        Err(e) => (e.span, e.message),
    }
}

#[test]
fn operations_errors() {
    let mut s = OperationsState::new();
    let e = s.handle_token(&group(Delimiter::Brace, vec![], 2)).err().unwrap();
    assert_eq!(
        (e.span, e.message.as_str()),
        (2, "unexpected punctuation, expected punctuation '['")
    );
    assert_eq!(ops_error(vec![punct(',', 1)]), (1, "unexpected token, expected identifier".to_string()));
    assert_eq!(
        ops_error(vec![ident("a", 1), punct(';', 2)]),
        (2, "unexpected punctuation ';', expected '::' or ','".to_string())
    );
    assert_eq!(
        ops_error(vec![ident("a", 1), ident("b", 2)]),
        (2, "unexpected token, expected punctuation '::' or ','".to_string())
    );
    assert_eq!(
        ops_error(vec![ident("a", 1), punct(':', 2), punct(';', 3)]),
        (3, "unexpected punctuation ';', expected '::'".to_string())
    );
    assert_eq!(
        ops_error(vec![ident("a", 1), punct(':', 2), ident("b", 3)]),
        (3, "unexpected token, expected punctuation '::'".to_string())
    );
    assert_eq!(
        ops_error(vec![ident("a", 1), punct(':', 2)]),
        (2, "unexpected end of input".to_string())
    );
    assert_eq!(
        ops_error(vec![ident("a", 1), punct(':', 2), punct(':', 3)]),
        (3, "unexpected end of input".to_string())
    );
}

#[test]
fn operation_constant_is_upper_case_of_function() {
    let mut s = OperationsState::new();
    s.handle_token(&group(
        Delimiter::Bracket,
        vec![ident("crate", 1), joint(':', 2), punct(':', 3), ident("say_hi", 4)],
        0,
    ))
    .ok()
    .unwrap();
    let defs = s.take_definitions();
    assert_eq!(defs.len(), 1);
    assert_eq!(defs[0].definition_handle.len(), 4);
    assert_eq!(ident_name(&defs[0].definition_handle[0]), ("crate".to_string(), 1));
    assert_eq!(ident_name(&defs[0].definition_handle[3]), ("SAY_HI".to_string(), CALL_SITE));
    let plan = expand_operation_function(fn_sig("say_hi", FnVisibility::Inherited, vec![], None))
    .ok()
    .unwrap();
    assert_eq!(plan.const_name, ident_name(&defs[0].definition_handle[3]).0);
}

#[test]
fn reference_turns_function_path_into_constant_path() {
    let input = vec![joint(':', 1), punct(':', 2), ident("ops", 3), joint(':', 4), punct(':', 5), ident("greet", 6)];
    let out = extension_operation_function_reference(input, 0).ok().unwrap();
    assert_eq!(out.len(), 6);
    assert_eq!(ident_name(&out[2]), ("ops".to_string(), 3));
    assert_eq!(ident_name(&out[5]), ("GREET".to_string(), 6));
}

#[test]
fn reference_errors() {
    let err = |input: Vec<Token>| {
        let e = extension_operation_function_reference(input, 42).err().unwrap();
        (e.span, e.message)
    };
    assert_eq!(err(vec![]), (42, "unexpected end of input, expected identifier or punctuation ':'".to_string()));
    assert_eq!(err(vec![lit("1", 1)]), (1, "unexpected literal, expected punctuation ':'".to_string()));
    assert_eq!(
        err(vec![group(Delimiter::Parenthesis, vec![], 1)]),
        (1, "unexpected group, expected punctuation ':'".to_string())
    );
    assert_eq!(err(vec![punct(';', 1)]), (1, "unexpected punctuation ';', expected punctuation ':'".to_string()));
    assert_eq!(err(vec![ident("a", 1), ident("b", 2)]), (2, "unexpected identifier, expected punctuation ':'".to_string()));
    assert_eq!(err(vec![punct(':', 1), punct(':', 2), punct(':', 3)]), (3, "unexpected punctuation ':', expected identifier".to_string()));
    assert_eq!(err(vec![ident("a", 1), punct(':', 2)]), (2, "unexpected end of input, expected punctuation ':'".to_string()));
    assert_eq!(err(vec![ident("a", 1), punct(':', 2), punct(':', 3)]), (3, "unexpected end of input, expected identifier".to_string()));
}

fn fn_sig(name: &str, visibility: FnVisibility, inputs: Vec<OpParam>, output: Option<(u64, u64, Vec<Token>)>) -> OpSignature {
    OpSignature {
        attrs: vec![],
        visibility,
        qualifiers: vec![],
        unsafety: None,
        fn_span: 3,
        name: name.to_string(),
        ident_span: 6,
        generics: vec![],
        inputs,
        output,
        where_clause: vec![],
        block: group(Delimiter::Brace, vec![ident("body", 40)], 39),
    }
}

fn sig(inputs: Vec<OpParam>) -> OpSignature {
    fn_sig("greet", FnVisibility::Public { span: 5 }, inputs, Some((28, 29, vec![ident("String", 30)])))
}

fn binding(name: &str) -> OpParam {
    OpParam::Typed {
        pat: OpPattern::Ident {
            by_ref: None,
            mutability: false,
            subpat: false,
            name: name.to_string(),
            name_span: 22,
        },
        ty: vec![ident("String", 21)],
        span: 20,
    }
}

/// The tokens as text: a joint punctuation is written against the next
/// token, everything else is followed by a space.
fn render(tokens: &[Token]) -> String {
    let mut out = String::new();
    for t in tokens {
        match t {
            Token::Ident { name, .. } => {
                out.push_str(name);
                out.push(' ');
            }
            Token::Literal { text, .. } => {
                out.push_str(text);
                out.push(' ');
            }
            Token::Punct { ch, spacing, .. } => {
                out.push(*ch);
                if *spacing == Spacing::Alone {
                    out.push(' ');
                }
            }
            Token::Group { delimiter, stream, .. } => {
                let (open, close) = match delimiter {
                    Delimiter::Parenthesis => ("(", ")"),
                    Delimiter::Brace => ("{", "}"),
                    Delimiter::Bracket => ("[", "]"),
                    Delimiter::Invisible => ("", ""),
                };
                out.push_str(open);
                out.push(' ');
                out.push_str(&render(stream));
                out.push_str(close);
                out.push(' ');
            }
        }
    }
    out
}

#[test]
fn op_expands_greet() {
    let plan = expand_operation_function(sig(vec![binding("input")])).ok().unwrap();
    assert_eq!(
        render(&plan.tokens).trim_end(),
        "pub ( crate ) fn greet ( tnn_operation_context : :: tnn :: OpContext < '_ , String > ) \
         -> :: std :: pin :: Pin < Box < dyn :: std :: future :: Future < Output = String > > > \
         { let input = tnn_operation_context . input ; :: std :: boxed :: Box :: pin ( async move { body } ) } \
         pub const GREET : :: tnn :: Operation < '_ , String , String > = :: tnn :: Operation \
         { _phantom : :: std :: marker :: PhantomData , name : \"GREET\" , owner : crate :: EXTENSION_NAME , \
         id : :: tnn :: __private :: concatcp ! ( crate :: EXTENSION_NAME , \"/\" , \"GREET\" ) } ;"
    );
}

#[test]
fn op_expands_hello() {
    let plan = expand_operation_function(fn_sig(
        "hello",
        FnVisibility::Public { span: 5 },
        vec![],
        Some((28, 29, vec![ident("String", 30)])),
    ))
    .ok()
    .unwrap();
    assert_eq!(
        render(&plan.tokens).trim_end(),
        "pub ( crate ) fn hello ( tnn_operation_context : :: tnn :: OpContext < '_ , ( ) > ) \
         -> :: std :: pin :: Pin < Box < dyn :: std :: future :: Future < Output = String > > > \
         { :: std :: boxed :: Box :: pin ( async move { body } ) } \
         pub const HELLO : :: tnn :: Operation < '_ , ( ) , String > = :: tnn :: Operation \
         { _phantom : :: std :: marker :: PhantomData , name : \"HELLO\" , owner : crate :: EXTENSION_NAME , \
         id : :: tnn :: __private :: concatcp ! ( crate :: EXTENSION_NAME , \"/\" , \"HELLO\" ) } ;"
    );
}

#[test]
fn op_keeps_attributes_restriction_and_unit_output() {
    let mut s = fn_sig(
        "tick",
        FnVisibility::Restricted { tokens: vec![ident("pub", 2), group(Delimiter::Parenthesis, vec![ident("super", 3)], 4)] },
        vec![],
        None,
    );
    s.attrs = vec![punct('#', 1), group(Delimiter::Bracket, vec![ident("inline", 8)], 7)];
    let plan = expand_operation_function(s).ok().unwrap();
    assert_eq!(plan.visibility, OpVisibility::Restricted);
    assert!(render(&plan.tokens).starts_with(
        "# [ inline ] pub ( super ) fn tick ( tnn_operation_context : :: tnn :: OpContext < '_ , ( ) > ) \
         -> :: std :: pin :: Pin < Box < dyn :: std :: future :: Future < Output = ( ) > > > {"
    ));
}

#[test]
fn op_plan_for_a_function_with_input() {
    let plan = expand_operation_function(sig(vec![binding("input")])).ok().unwrap();
    assert_eq!(plan.input_name.as_deref(), Some("input"));
    assert_eq!(plan.const_name, "GREET");
    assert_eq!(plan.name_literal, "\"GREET\"");
    assert_eq!(plan.visibility, OpVisibility::Crate { span: 5 });
    let mut no_input = sig(vec![]);
    no_input.visibility = FnVisibility::Restricted { tokens: vec![] };
    let plan = expand_operation_function(no_input).ok().unwrap();
    assert!(plan.input_name.is_none());
    assert_eq!(plan.visibility, OpVisibility::Restricted);
}

fn op_error(s: OpSignature) -> (u64, String) {
    let e = expand_operation_function(s).err().unwrap();
    (e.span, e.message)
}

#[test]
fn op_errors() {
    let mut unsafe_fn = sig(vec![]);
    unsafe_fn.unsafety = Some(3);
    assert_eq!(op_error(unsafe_fn), (3, "op should not be unsafe (NO_UNSAFE_OP)".to_string()));
    let two = sig(vec![binding("a"), OpParam::Receiver { span: 31 }]);
    assert_eq!(op_error(two), (31, "op should only accept a single parameter".to_string()));
    assert_eq!(
        op_error(sig(vec![OpParam::Receiver { span: 30 }])),
        (30, "parameter should be typed, not a receiver".to_string())
    );
    let other = OpParam::Typed { pat: OpPattern::Other { span: 33 }, ty: vec![], span: 20 };
    assert_eq!(op_error(sig(vec![other])), (33, "parameter should be a binding identifier".to_string()));
    let by_ref = OpParam::Typed {
        pat: OpPattern::Ident { by_ref: Some(34), mutability: false, subpat: false, name: "a".to_string(), name_span: 35 },
        ty: vec![],
        span: 20,
    };
    assert_eq!(op_error(sig(vec![by_ref])), (34, "parameter must be owned".to_string()));
    let mutable = OpParam::Typed {
        pat: OpPattern::Ident { by_ref: None, mutability: true, subpat: false, name: "a".to_string(), name_span: 35 },
        ty: vec![],
        span: 20,
    };
    assert_eq!(op_error(sig(vec![mutable])), (CALL_SITE, "parameter must not be mutable".to_string()));
    let sub = OpParam::Typed {
        pat: OpPattern::Ident { by_ref: None, mutability: false, subpat: true, name: "a".to_string(), name_span: 35 },
        ty: vec![],
        span: 20,
    };
    assert_eq!(op_error(sig(vec![sub])), (CALL_SITE, "parameter must not have subpattern".to_string()));
    assert_eq!(
        op_error(sig(vec![binding("tnn_operation_context")])),
        (CALL_SITE, "parameter must not be named 'tnn_operation_context'".to_string())
    );
    let e = expand_op(OpItem::Other { span: 77 }).err().unwrap();
    assert_eq!((e.span, e.message.as_str()), (77, "op can only be used on a function"));
    assert!(expand_op(OpItem::Function(sig(vec![]))).is_ok());
}

#[test]
fn unfinished_dependency_is_reported() {
    assert_eq!(
        deps_error(vec![ident("a", 3), punct('=', 4)]),
        (4, "unexpected end of input".to_string())
    );
    assert_eq!(deps_error(vec![ident("a", 3)]), (3, "unexpected end of input".to_string()));
    assert_eq!(
        deps_error(vec![ident("a", 3), punct('=', 4), ident("optional", 5)]),
        (5, "unexpected end of input".to_string())
    );
    let mut s = DependenciesState::new();
    assert!(s.handle_token(&group(Delimiter::Brace, vec![], 1)).is_ok());
}

#[test]
fn readers_keep_what_they_read_before_an_error() {
    let mut s = DependenciesState::new();
    let stream = vec![
        ident("a", 1),
        punct('=', 2),
        lit("\"1\"", 3),
        punct(',', 4),
        ident("b", 5),
        punct('=', 6),
        lit("\"not a requirement\"", 7),
    ];
    assert!(s.handle_token(&group(Delimiter::Brace, stream, 0)).is_err());
    let defs = s.take_definitions();
    assert_eq!(defs.len(), 1);
    assert_eq!(defs[0].name_ident.name, "a");

    let mut o = OperationsState::new();
    let stream = vec![ident("a", 1), punct(',', 2), ident("b", 3), punct(':', 4), ident("c", 5)];
    assert!(o.handle_token(&group(Delimiter::Bracket, stream, 0)).is_err());
    let defs = o.take_definitions();
    assert_eq!(defs.len(), 1);
    assert_eq!(ident_name(&defs[0].function_handle[0]).0, "a");

    let mut o = OperationsState::new();
    assert!(o.handle_token(&group(Delimiter::Parenthesis, vec![ident("a", 1)], 0)).is_err());
    assert!(o.take_definitions().is_empty());
}

/// The spans the rewrite writes: `fn`, the name and `->` where they stood,
/// the input binding at the parameter's name, and the call of `Box::pin`
/// at the body's span; each closing `>` of the future alone.
#[test]
fn op_output_spans() {
    let plan = expand_operation_function(sig(vec![binding("input")])).ok().unwrap();
    let t = &plan.tokens;
    let span = |tok: &Token| tok.span();
    assert_eq!(ident_name(&t[2]), ("fn".to_string(), 3));
    assert_eq!(ident_name(&t[3]), ("greet".to_string(), 6));
    assert_eq!((punct_char(&t[5]), span(&t[5])), ('-', 28));
    assert_eq!((punct_char(&t[6]), span(&t[6])), ('>', 29));
    let body = t.iter().find(|x| matches!(x, Token::Group { delimiter: Delimiter::Brace, .. })).unwrap();
    match body {
        Token::Group { stream, span: s, .. } => {
            assert_eq!(*s, 39);
            assert_eq!(ident_name(&stream[1]), ("input".to_string(), 22));
            assert_eq!(ident_name(&stream[0]), ("let".to_string(), CALL_SITE));
            for tok in &stream[7..] {
                assert_eq!(span(tok), 39);
            }
            match &stream[stream.len() - 1] {
                Token::Group { stream: inner, .. } => {
                    assert_eq!(ident_name(&inner[0]), ("async".to_string(), 39));
                    assert_eq!(ident_name(&inner[1]), ("move".to_string(), 39));
                }
                _ => panic!("expected the call's parentheses"),
            }
        }
        _ => unreachable!(),
    }
    let closing: Vec<&Token> = t[..t.len() - 1]
        .iter()
        .filter(|x| matches!(x, Token::Punct { ch: '>', .. }))
        .collect();
    for p in closing {
        assert!(matches!(p, Token::Punct { spacing: Spacing::Alone, .. }));
    }
}
