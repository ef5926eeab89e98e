use clax_lexer::{parse_function, parse_token_stream, Arg, Function, IdentDecl, TokenStream, Type};

fn stream(input: &str) -> TokenStream {
    parse_token_stream(input).unwrap()
}

fn name(text: &str) -> IdentDecl {
    IdentDecl(text.to_string())
}

#[test]
fn function_without_arguments() {
    assert_eq!(
        parse_function(stream("fn foo() {}")),
        Some(Function { ident: name("foo"), args: vec![], return_type: None })
    );
}

#[test]
fn function_with_arguments_and_return_type() {
    assert_eq!(
        parse_function(stream("fn add(a: i32, b: i32) -> i32 {}")),
        Some(Function {
            ident: name("add"),
            args: vec![
                Arg { ident: name("a"), ty: Type::I32 },
                Arg { ident: name("b"), ty: Type::I32 },
            ],
            return_type: Some(Type::I32),
        })
    );
    assert_eq!(
        parse_function(stream("fn show(s: String) { }")),
        Some(Function {
            ident: name("show"),
            args: vec![Arg { ident: name("s"), ty: Type::String }],
            return_type: None,
        })
    );
    assert_eq!(
        parse_function(stream("// doc\nfn f()->String{}// end")),
        Some(Function { ident: name("f"), args: vec![], return_type: Some(Type::String) })
    );
}

#[test]
fn other_streams_are_no_function() {
    for text in [
        "",
        "fn",
        "fn foo",
        "fn foo()",
        "fn foo() {",
        "fn foo() {} ;",
        "foo() {}",
        "let foo() {}",
        "fn fn() {}",
        "fn foo[] {}",
        "fn foo(a) {}",
        "fn foo(a: ) {}",
        "fn foo(a: u8) {}",
        "fn foo(a: i32,) {}",
        "fn foo(, a: i32) {}",
        "fn foo(a: i32 b: i32) {}",
        "fn foo(a: i32, b) {}",
        "fn foo(a = i32) {}",
        "fn foo() -> {}",
        "fn foo() -> u8 {}",
        "fn foo() => i32 {}",
        "fn foo() -> i32",
        "fn foo() -> i32 -> i32 {}",
        "fn foo() { x }",
        "fn \"foo\"() {}",
        "fn foo(a: i32",
        "fn foo(a: i32,",
    ] {
        assert_eq!(parse_function(stream(text)), None, "{text}");
    }
}
