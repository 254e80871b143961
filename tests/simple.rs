use rayon_macro::{parallel, Expr, ForEach, ForLoop, LoopKind};

fn node(kind: &str, parts: Vec<Expr>) -> Expr {
    Expr::Node { kind: kind.to_string(), parts }
}

fn leaf(text: &str) -> Expr {
    node(text, Vec::new())
}

fn name(l: Option<&str>) -> Option<String> {
    l.map(|s| s.to_string())
}

fn cont(l: Option<&str>) -> Expr {
    Expr::Continue { label: name(l) }
}

fn ret() -> Expr {
    Expr::Return { value: None }
}

fn for_in(l: Option<&str>, range: &str, stmts: Vec<Expr>) -> Expr {
    let mut parts = vec![leaf(range)];
    parts.extend(stmts);
    Expr::Loop { form: LoopKind::For, label: name(l), parts }
}

fn once(l: Option<&str>, stmts: Vec<Expr>) -> Expr {
    Expr::Loop {
        form: LoopKind::While,
        label: name(l),
        parts: vec![
            node("block", vec![node("block", stmts), leaf("false")]),
            node("block", Vec::new()),
        ],
    }
}

fn print_i() -> Expr {
    leaf("println!(\"{}\", i)")
}

#[test]
fn print10() {
    let input = ForLoop {
        attrs: Vec::new(),
        label: None,
        pat: "i".to_string(),
        expr: leaf("0..10"),
        body: vec![print_i()],
    };
    let out = parallel(input, "rayon".to_string()).unwrap();
    let expected = ForEach {
        engine: "rayon".to_string(),
        source: leaf("0..10"),
        pat: "i".to_string(),
        body: once(None, vec![print_i()]),
    };
    assert_eq!(out, expected);
}

fn odd_body(inner_target: Expr, skip_even: Expr) -> Vec<Expr> {
    vec![
        for_in(None, "0..10", vec![cont(None)]),
        for_in(
            Some("inner"),
            "0..10",
            vec![node("if", vec![leaf("i % 4 == 0"), inner_target]), cont(Some("inner"))],
        ),
        for_in(Some("outer"), "0..10", vec![cont(Some("outer"))]),
        node("if", vec![leaf("i % 2 == 0"), skip_even]),
        print_i(),
    ]
}

#[test]
fn print10_odd() {
    let input = ForLoop {
        attrs: Vec::new(),
        label: name(Some("outer")),
        pat: "i".to_string(),
        expr: leaf("0..20"),
        body: odd_body(cont(Some("outer")), cont(None)),
    };
    let out = parallel(input, "rayon".to_string()).unwrap();
    let expected = ForEach {
        engine: "rayon".to_string(),
        source: leaf("0..20"),
        pat: "i".to_string(),
        body: once(Some("outer"), odd_body(ret(), ret())),
    };
    assert_eq!(out, expected);
}
