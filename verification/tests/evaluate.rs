use w1::ast::{parse, Ast, Block, Node, ParseErrorKind, Variable};
use w1::eval::{eval, try_eval, EvalError, Evaluator, Scope};
use w1::token::{tokenize, TokenKind};

fn run(src: &str) -> Result<String, w1::Error<'_>> {
    w1::try_eval(src)
}

#[test]
fn eval_text_only() {
    assert_eq!(run("{{ a b }}").unwrap(), "{{ a b ");
    assert_eq!(run("hello").unwrap(), "hello");
}

#[test]
fn eval_macro_definition_writes_nothing() {
    assert_eq!(run("@macro m() {{x}}").unwrap(), "");
}

#[test]
fn eval_invocation_substitutes_arguments() {
    assert_eq!(run("@macro m($a, $b) {{[$b|$a]}} @m({{1}}, {{2}})").unwrap(), "[2|1]");
}

#[test]
fn eval_undefined_macro() {
    assert_eq!(run("@m()").unwrap_err(), w1::Error::Eval(EvalError::UndefinedMacro("m")));
}

#[test]
fn eval_macro_used_before_definition() {
    assert_eq!(
        run("@m() @macro m() {{x}}").unwrap_err(),
        w1::Error::Eval(EvalError::UndefinedMacro("m"))
    );
}

#[test]
fn eval_undefined_variable() {
    assert_eq!(run("$x").unwrap_err(), w1::Error::Eval(EvalError::UndefinedVariable("x")));
}

#[test]
fn eval_latest_definition_wins() {
    assert_eq!(run("@macro m() {{1}} @m() @macro m() {{2}} @m()").unwrap(), "12");
}

#[test]
fn eval_definition_inside_block_needs_identifier() {
    // Inside a block whitespace is text, so `@macro` is followed by text.
    match run("@macro outer() {{@macro inner() {{i}}}}").unwrap_err() {
        w1::Error::Parse(e) => assert_eq!(
            e.kind,
            ParseErrorKind::ExpectedIdentifier {
                context: w1::ast::IdentContext::AfterMacro,
                got: Some(TokenKind::Text(" inner")),
            }
        ),
        other => panic!("unexpected {:?}", other),
    }
}

#[test]
fn eval_variables_are_dynamically_scoped() {
    // The argument of `b` refers to `$x`, which is bound where it is expanded.
    let src = "@macro a($x) {{@b({{$x}})}} @macro b($y) {{$y}} @a({{v}})";
    assert_eq!(run(src).unwrap(), "v");
}

#[test]
fn eval_extra_and_missing_arguments() {
    assert_eq!(run("@macro m($a) {{$a}} @m({{1}}, {{2}})").unwrap(), "1");
    assert_eq!(
        run("@macro m($a, $b) {{$b}} @m({{1}})").unwrap_err(),
        w1::Error::Eval(EvalError::UndefinedVariable("b"))
    );
}

#[test]
fn eval_repeated_parameter_binds_last() {
    assert_eq!(run("@macro m($a, $a) {{$a}} @m({{1}}, {{2}})").unwrap(), "2");
}

#[test]
fn eval_parse_error_is_reported() {
    match run("@macro m($a").unwrap_err() {
        w1::Error::Parse(e) => assert_eq!(e.kind, ParseErrorKind::UnexpectedEofInParameters),
        other => panic!("unexpected {:?}", other),
    }
    match run("@m x").unwrap_err() {
        w1::Error::Parse(e) => assert_eq!(
            e.kind,
            ParseErrorKind::ExpectedToken { expected: TokenKind::ParenOpen, got: Some(TokenKind::Ident("x")) }
        ),
        other => panic!("unexpected {:?}", other),
    }
}

#[test]
fn eval_whitespace_inside_arguments_is_kept() {
    assert_eq!(run("@macro m($a) {{<$a>}} @m({{ x y }})").unwrap(), "< x y >");
}

#[test]
fn eval_function_on_ast() {
    let src = "@macro m() {{ok}}@m()";
    let ast = parse(src, tokenize(src));
    assert_eq!(eval(&ast), "ok");
    assert_eq!(try_eval(&ast).unwrap(), "ok");
    assert_eq!(Evaluator::new(&ast).eval(), "ok");
    assert_eq!(Evaluator::new(&ast).try_eval().unwrap(), "ok");
}

#[test]
fn scope_api() {
    let src = "@macro m() {{x}} $v";
    let ast = parse(src, tokenize(src));
    let root = Block { nodes: ast.nodes };
    let mut scope = Scope::new_root(&root);
    assert!(scope.find_macro("m").is_none());
    let mut out = String::new();
    assert_eq!(scope.try_eval(&mut out), Err(EvalError::UndefinedVariable("v")));
    assert_eq!(scope.get_macro("m").name, "m");
    assert!(scope.find_variable(&Variable { name: "v" }).is_none());

    let inner = Block { nodes: vec![Node::Text("t")] };
    let child = Scope::new(&inner, &scope);
    assert_eq!(child.get_macro("m").template, Block { nodes: vec![Node::Text("x")] });
    let _ = Ast { nodes: vec![] };
}

#[test]
fn scope_get_variable() {
    let src = "@macro m($a) {{$a}} @m({{arg}})";
    let ast = parse(src, tokenize(src));
    let arg = match &ast.nodes[1] {
        Node::Invokation(c) => c.args[0].clone(),
        _ => panic!("expected an invocation"),
    };
    let root = Block { nodes: vec![] };
    let outer = Scope::new_root(&root);
    let scope = Scope::new(&arg, &outer);
    assert!(scope.find_variable(&Variable { name: "a" }).is_none());
}

#[test]
fn scope_eval_appends() {
    let root = Block { nodes: vec![Node::Text("b"), Node::Text("c")] };
    let mut scope = Scope::new_root(&root);
    let mut out = String::from("a");
    scope.eval(&mut out);
    assert_eq!(out, "abc");
}

#[test]
fn eval_other_definitions_kept() {
    assert_eq!(run("@macro a() {{1}} @macro b() {{2}} @a() @b() @a()").unwrap(), "121");
}

#[test]
fn eval_nested_invocations() {
    let src = "@macro a($x) {{($x)}} @macro b($y) {{@a({{[$y]}})}} @macro c($z) {{@b({{$z$z}})}} @c({{k}})";
    assert_eq!(run(src).unwrap(), "([kk])");
}

#[test]
fn eval_call_form_of_readme() {
    let src = r#"@macro card($title, $content) {{
<div class="card">
    <h2>$title</h2>
    <div class="card-body">
        $content
    </div>
</div>
}}

@call card({{Welcome}}, {{<p>Lorem ipsum dolor, sit amet consectetur.</p>}})"#;
    let expected = "<div class=\"card\">\n    <h2>Welcome</h2>\n    <div class=\"card-body\">\n        <p>Lorem ipsum dolor, sit amet consectetur.</p>\n    </div>\n</div>";
    assert_eq!(w1::eval(src).trim(), expected);
}

#[test]
fn eval_call_macro_named_call() {
    assert_eq!(run("@macro call($x) {{<$x>}} @call({{y}})").unwrap(), "<y>");
}

#[test]
fn eval_lib_eval_and_check() {
    assert_eq!(w1::eval("@macro m() {{z}} @m()"), "z");
    assert!(w1::check("@macro m() {{z}} @m()").is_ok());
    assert_eq!(w1::check("@m()").unwrap_err(), w1::Error::Eval(EvalError::UndefinedMacro("m")));
}

#[test]
fn clone_syntax_trees() {
    let src = "@macro m($a) {{x$a}} @m({{1}})";
    let ast = parse(src, tokenize(src));
    let copy = ast.clone();
    assert_eq!(copy, ast);
    assert_eq!(ast.nodes[0].clone(), ast.nodes[0]);
    if let (Node::Macro(m), Node::Invokation(c)) = (&ast.nodes[0], &ast.nodes[1]) {
        assert_eq!(&m.clone(), m);
        assert_eq!(&c.clone(), c);
        assert_eq!(m.template.clone(), m.template);
    } else {
        panic!("unexpected nodes");
    }
}
