use rayon_macro::{parallel, Expr, ForEach, ForLoop, LoopKind, TransformBody, Unsupported};

fn node(kind: &str, parts: Vec<Expr>) -> Expr {
    Expr::Node { kind: kind.to_string(), parts }
}

fn leaf(text: &str) -> Expr {
    node(text, Vec::new())
}

fn name(l: Option<&str>) -> Option<String> {
    l.map(|s| s.to_string())
}

fn cont(l: Option<&str>) -> Expr {
    Expr::Continue { label: name(l) }
}

fn ret() -> Expr {
    Expr::Return { value: None }
}

fn for_in(l: Option<&str>, range: &str, stmts: Vec<Expr>) -> Expr {
    let mut parts = vec![leaf(range)];
    parts.extend(stmts);
    Expr::Loop { form: LoopKind::For, label: name(l), parts }
}

fn once(l: Option<&str>, stmts: Vec<Expr>) -> Expr {
    Expr::Loop {
        form: LoopKind::While,
        label: name(l),
        parts: vec![
            node("block", vec![node("block", stmts), leaf("false")]),
            node("block", Vec::new()),
        ],
    }
}

fn item(text: &str) -> Expr {
    Expr::Item { text: text.to_string() }
}

fn input(l: Option<&str>, body: Vec<Expr>) -> ForLoop {
    ForLoop { attrs: Vec::new(), label: name(l), pat: "x".to_string(), expr: leaf("v"), body }
}

fn run(l: Option<&str>, body: Vec<Expr>) -> Result<ForEach, Unsupported> {
    parallel(input(l, body), "engine".to_string())
}

fn expect_body(l: Option<&str>, body: Vec<Expr>, rewritten: Vec<Expr>) {
    let out = run(l, body).unwrap();
    assert_eq!(out.engine, "engine");
    assert_eq!(out.source, leaf("v"));
    assert_eq!(out.pat, "x");
    assert_eq!(out.body, once(l, rewritten));
}

#[test]
fn empty_body_is_wrapped_once() {
    expect_body(None, Vec::new(), Vec::new());
}

#[test]
fn plain_continue_becomes_return() {
    let body = vec![
        node("if", vec![leaf("x > 3"), cont(None)]),
        for_in(None, "0..2", vec![cont(None)]),
        node("try", vec![Expr::TryBlock { parts: vec![cont(None)] }]),
        leaf("f(x)"),
    ];
    let rewritten = vec![
        node("if", vec![leaf("x > 3"), ret()]),
        for_in(None, "0..2", vec![cont(None)]),
        node("try", vec![Expr::TryBlock { parts: vec![ret()] }]),
        leaf("f(x)"),
    ];
    expect_body(None, body, rewritten);
}

#[test]
fn shadowing_loop_is_untouched() {
    let inner = vec![
        cont(Some("outer")),
        cont(None),
        Expr::Break { label: name(Some("outer")), value: None },
        Expr::Break { label: None, value: None },
    ];
    let body = vec![for_in(Some("outer"), "0..3", inner)];
    let out = run(Some("outer"), body).unwrap();
    let inner = vec![
        cont(Some("outer")),
        cont(None),
        Expr::Break { label: name(Some("outer")), value: None },
        Expr::Break { label: None, value: None },
    ];
    assert_eq!(out.body, once(Some("outer"), vec![for_in(Some("outer"), "0..3", inner)]));
}

#[test]
fn shadow_ends_with_its_loop() {
    let body = vec![
        for_in(Some("outer"), "0..3", vec![cont(Some("outer"))]),
        Expr::Loop { form: LoopKind::Loop, label: name(Some("outer")), parts: vec![cont(Some("outer"))] },
        cont(Some("outer")),
    ];
    let rewritten = vec![
        for_in(Some("outer"), "0..3", vec![cont(Some("outer"))]),
        Expr::Loop { form: LoopKind::Loop, label: name(Some("outer")), parts: vec![cont(Some("outer"))] },
        ret(),
    ];
    expect_body(Some("outer"), body, rewritten);
}

#[test]
fn labelled_continue_through_nested_loops() {
    let deep = |last: Expr| {
        Expr::Loop {
            form: LoopKind::Loop,
            label: None,
            parts: vec![Expr::Loop {
                form: LoopKind::While,
                label: name(Some("other")),
                parts: vec![leaf("c"), last, cont(None), cont(Some("other"))],
            }],
        }
    };
    expect_body(Some("outer"), vec![deep(cont(Some("outer")))], vec![deep(ret())]);
}

#[test]
fn continue_with_unknown_label_is_kept() {
    expect_body(None, vec![cont(Some("outer"))], vec![cont(Some("outer"))]);
}

#[test]
fn break_out_of_the_loop_is_refused() {
    let top = vec![Expr::Break { label: None, value: None }];
    assert_eq!(run(None, top), Err(Unsupported::Break));
    let nested = vec![for_in(None, "0..2", vec![Expr::Break { label: name(Some("outer")), value: None }])];
    assert_eq!(run(Some("outer"), nested), Err(Unsupported::Break));
}

#[test]
fn break_out_of_an_inner_loop_is_kept() {
    let b = Expr::Break { label: None, value: Some(Box::new(cont(None))) };
    let body = vec![Expr::Loop { form: LoopKind::Loop, label: None, parts: vec![b] }];
    let b = Expr::Break { label: None, value: Some(Box::new(cont(None))) };
    let rewritten = vec![Expr::Loop { form: LoopKind::Loop, label: None, parts: vec![b] }];
    expect_body(None, body, rewritten);
}

#[test]
fn break_value_is_rewritten() {
    let b = |v: Expr| Expr::Break { label: name(Some("blk")), value: Some(Box::new(v)) };
    expect_body(None, vec![node("block", vec![b(cont(None))])], vec![node("block", vec![b(ret())])]);
}

#[test]
fn return_is_refused_anywhere() {
    assert_eq!(run(None, vec![ret()]), Err(Unsupported::Return));
    let nested = vec![for_in(None, "0..2", vec![node("if", vec![leaf("c"), ret()])])];
    assert_eq!(run(None, nested), Err(Unsupported::Return));
}

#[test]
fn closures_and_items_are_untouched() {
    let body = vec![
        Expr::Closure { text: "|| { return; }".to_string() },
        item("fn helper() -> u8 { loop { break 7; } }"),
        node("block", vec![item("struct S;"), cont(None)]),
    ];
    let rewritten = vec![
        Expr::Closure { text: "|| { return; }".to_string() },
        item("fn helper() -> u8 { loop { break 7; } }"),
        node("block", vec![item("struct S;"), ret()]),
    ];
    expect_body(None, body, rewritten);
}

#[test]
fn loop_attributes_are_refused() {
    let mut l = input(None, vec![leaf("f(x)")]);
    l.attrs.push("#[allow(unused)]".to_string());
    assert_eq!(parallel(l, "engine".to_string()), Err(Unsupported::Attributes));
}

#[test]
fn question_mark_needs_a_try_block() {
    let q = || Expr::Try { inner: Box::new(leaf("f()")) };
    assert_eq!(run(None, vec![q()]), Err(Unsupported::Try));
    let body = vec![Expr::TryBlock { parts: vec![q(), cont(None)] }];
    let rewritten = vec![Expr::TryBlock { parts: vec![q(), ret()] }];
    expect_body(None, body, rewritten);
}

#[test]
fn await_and_yield_are_refused() {
    let a = Expr::Await { inner: Box::new(leaf("fut")) };
    assert_eq!(run(None, vec![a]), Err(Unsupported::Await));
    let y = Expr::Yield { value: None };
    assert_eq!(run(None, vec![for_in(None, "0..1", vec![y])]), Err(Unsupported::Yield));
}

#[test]
fn first_refusal_in_source_order_wins() {
    let body = vec![ret(), Expr::Break { label: None, value: None }];
    assert_eq!(run(None, body), Err(Unsupported::Return));
    let body = vec![Expr::Break { label: None, value: None }, ret()];
    assert_eq!(run(None, body), Err(Unsupported::Break));
}

#[test]
fn messages() {
    assert_eq!(Unsupported::Attributes.message(), "loop attributes are not supported");
    assert_eq!(Unsupported::Break.message(), "`break` is not supported yet");
    assert_eq!(Unsupported::Return.message(), "`return` is not supported yet");
    assert_eq!(Unsupported::Try.message(), "`?` is not supported yet");
    assert_eq!(Unsupported::Await.message(), "`.await` is not supported");
    assert_eq!(Unsupported::Yield.message(), "`yield` is not supported");
}

#[test]
fn state_is_restored_after_each_expression() {
    let outer = "outer".to_string();
    let mut t = TransformBody::new(Some(&outer));
    assert!(t.is_controlled(&name(Some("outer"))));
    assert!(t.is_controlled(&None));
    let e = for_in(Some("outer"), "0..1", vec![cont(Some("outer"))]);
    let r = t.fold_expr(&e).unwrap();
    assert_eq!(r, e);
    assert_eq!(t.for_ident, name(Some("outer")));
    assert_eq!(t.loop_level, 0);
    assert_eq!(t.try_level, 0);
    let taken = t.take_shadowed(&name(Some("outer")));
    assert_eq!(taken, name(Some("outer")));
    assert_eq!(t.for_ident, None);
    assert_eq!(t.take_shadowed(&name(Some("outer"))), None);
}
