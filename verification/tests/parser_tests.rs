use scrust::ast::{Expr, Item, Op, Stmt, Type, UnOp, Visibility};
use scrust::parser::{item_function, parse_error_location, parse_program, stmt};

#[test]
fn test_func_comment() {
    let input = "
        /// My comment
        #[on_flag_clicked]
        fn start() {
        }
        ";
    let res = item_function(input);
    if let Err(e) = &res {
        println!("Error: {:?}", e);
    }
    assert!(res.is_ok());
    let (_, item) = res.unwrap();
    if let Item::Function(f) = item {
        assert_eq!(f.comment, Some("My comment".to_string()));
        assert_eq!(f.attributes.len(), 1);
    } else {
        panic!("Not a function");
    }
}

#[test]
fn test_stmt_comment() {
    let input = "
        /// My stmt comment
        move(10);
        ";
    let res = stmt(input);
    assert!(res.is_ok());
    let (_, s) = res.unwrap();
    match s {
        Stmt::Expr(_, comment) => assert_eq!(comment, Some("My stmt comment".to_string())),
        _ => panic!("Expected Expr stmt"),
    }
}

fn number_text(e: &Expr) -> String {
    match e {
        Expr::Number(n) => n.text.clone(),
        _ => panic!("not a number"),
    }
}

#[test]
fn precedence_multiplication_binds_tighter() {
    let (_, s) = stmt("x = 1 + 2 * 3;").unwrap();
    match s {
        Stmt::Assign(name, Expr::BinOp(l, Op::Add, r), None) => {
            assert_eq!(name, "x");
            assert_eq!(number_text(&l), "1");
            match *r {
                Expr::BinOp(a, Op::Mul, b) => {
                    assert_eq!(number_text(&a), "2");
                    assert_eq!(number_text(&b), "3");
                }
                _ => panic!("expected a product"),
            }
        }
        _ => panic!("expected an assignment"),
    }
}

#[test]
fn operators_fold_to_the_left() {
    let (_, s) = stmt("say(10 - 4 - 3);").unwrap();
    match s {
        Stmt::Expr(Expr::Call(name, args), None) => {
            assert_eq!(name, "say");
            assert_eq!(args.len(), 1);
            match &args[0] {
                Expr::BinOp(l, Op::Sub, r) => {
                    assert_eq!(number_text(r), "3");
                    match &**l {
                        Expr::BinOp(a, Op::Sub, b) => {
                            assert_eq!(number_text(a), "10");
                            assert_eq!(number_text(b), "4");
                        }
                        _ => panic!("expected the inner difference"),
                    }
                }
                _ => panic!("expected a difference"),
            }
        }
        _ => panic!("expected a call"),
    }
}

#[test]
fn compound_assignment_reads_the_variable() {
    let (_, s) = stmt("score += 5;").unwrap();
    match s {
        Stmt::Assign(name, Expr::BinOp(l, Op::Add, r), _) => {
            assert_eq!(name, "score");
            assert!(matches!(*l, Expr::Variable(ref v) if v == "score"));
            assert_eq!(number_text(&r), "5");
        }
        _ => panic!("expected an assignment"),
    }
    let (_, s) = stmt("lives -= 1;").unwrap();
    assert!(matches!(s, Stmt::Assign(_, Expr::BinOp(_, Op::Sub, _), _)));
}

#[test]
fn negative_numbers_and_unary_operators() {
    let (_, s) = stmt("f(-2.5, !done, -x);").unwrap();
    match s {
        Stmt::Expr(Expr::Call(_, args), _) => {
            assert_eq!(number_text(&args[0]), "-2.5");
            assert!(matches!(&args[1], Expr::UnOp(UnOp::Not, _)));
            assert!(matches!(&args[2], Expr::UnOp(UnOp::Neg, _)));
        }
        _ => panic!("expected a call"),
    }
}

#[test]
fn if_else_and_loops() {
    let src = "if x > 1 { say(\"big\"); } else { say(\"small\"); }";
    let (end, s) = stmt(src).unwrap();
    assert_eq!(end, src.chars().count());
    match s {
        Stmt::If(Expr::BinOp(_, Op::Gt, _), t, Some(e), None) => {
            assert_eq!(t.len(), 1);
            assert_eq!(e.len(), 1);
        }
        _ => panic!("expected if/else"),
    }
    let (_, s) = stmt("repeat(10) { move(1); turn(2); }").unwrap();
    assert!(matches!(s, Stmt::Repeat(_, ref b, None) if b.len() == 2));
    let (_, s) = stmt("forever { move(1); }").unwrap();
    assert!(matches!(s, Stmt::Forever(ref b, None) if b.len() == 1));
    let (_, s) = stmt("until touching(\"edge\") { move(1); }").unwrap();
    assert!(matches!(s, Stmt::Until(Expr::Call(_, _), _, None)));
}

#[test]
fn match_keeps_the_last_default() {
    let src = "match n { 1 => { a(); }, _ => { b(); } 2 => { c(); } _ => { d(); } }";
    let (_, s) = stmt(src).unwrap();
    match s {
        Stmt::Match(_, arms, Some(default), None) => {
            assert_eq!(arms.len(), 2);
            assert_eq!(number_text(&arms[0].0), "1");
            assert_eq!(number_text(&arms[1].0), "2");
            match &default[0] {
                Stmt::Expr(Expr::Call(name, _), _) => assert_eq!(name, "d"),
                _ => panic!("expected a call"),
            }
        }
        _ => panic!("expected a match"),
    }
}

#[test]
fn let_return_and_package_calls() {
    let (_, s) = stmt("let sum = math_utils::add(10, 20);").unwrap();
    match s {
        Stmt::Let(name, Expr::Call(callee, args), None) => {
            assert_eq!(name, "sum");
            assert_eq!(callee, "math_utils::add");
            assert_eq!(args.len(), 2);
        }
        _ => panic!("expected a let"),
    }
    let (_, s) = stmt("return a + b;").unwrap();
    assert!(matches!(s, Stmt::Return(Some(Expr::BinOp(_, Op::Add, _)), None)));
    let (_, s) = stmt("return;").unwrap();
    assert!(matches!(s, Stmt::Return(None, None)));
}

#[test]
fn c_block_statement() {
    let (_, s) = stmt("with_pen(\"edge\") { bounce(); }").unwrap();
    match s {
        Stmt::CBlock(name, args, body, None) => {
            assert_eq!(name, "with_pen");
            assert_eq!(args.len(), 1);
            assert_eq!(body.len(), 1);
        }
        _ => panic!("expected a C block"),
    }
}

#[test]
fn statement_errors() {
    assert!(stmt("move(10)").is_err());
    assert!(stmt("").is_err());
    assert!(stmt("f(1 );").is_err());
}

#[test]
fn procedure_with_return_type_and_warp() {
    let src = "#[warp]\nproc add(a: number, b: number) -> number {\n    return a + b;\n}\n";
    let p = parse_program(src).unwrap();
    assert_eq!(p.items.len(), 1);
    match &p.items[0] {
        Item::Procedure(d) => {
            assert_eq!(d.name, "add");
            assert_eq!(d.params.len(), 2);
            assert_eq!(d.params[1].name, "b");
            assert_eq!(d.params[1].ty, Type::Number);
            assert_eq!(d.return_type, Some(Type::Number));
            assert!(d.is_warp);
            assert!(d.format.is_none());
        }
        _ => panic!("expected a procedure"),
    }
}

#[test]
fn nowarp_overrides_warp() {
    let p = parse_program("#[warp]\n#[nowarp]\nfn go() { }\n").unwrap();
    match &p.items[0] {
        Item::Function(f) => {
            assert_eq!(f.attributes.len(), 2);
            assert!(!f.is_warp);
        }
        _ => panic!("expected a script"),
    }
}

#[test]
fn declarations_and_assets() {
    let src = "/// The score\npublic var score = 0;\nlist items = [1, 2];\ncostume \"idle\" \"a/idle.svg\" 32 -8;\nsound \"pop\" \"a/pop.wav\";\n";
    let p = parse_program(src).unwrap();
    assert_eq!(p.items.len(), 4);
    match &p.items[0] {
        Item::Variable(v) => {
            assert_eq!(v.name, "score");
            assert_eq!(v.visibility, Visibility::Public);
            assert_eq!(v.ty, Type::Unknown);
            assert_eq!(v.comment, Some("The score".to_string()));
        }
        _ => panic!("expected a variable"),
    }
    match &p.items[1] {
        Item::Variable(v) => {
            assert_eq!(v.ty, Type::List);
            assert_eq!(v.visibility, Visibility::Default);
            assert!(matches!(&v.init, Expr::List(xs) if xs.len() == 2));
        }
        _ => panic!("expected a list"),
    }
    match &p.items[2] {
        Item::Costume(c) => {
            assert_eq!(c.name, "idle");
            assert_eq!(c.path, "a/idle.svg");
            assert_eq!(c.x.as_ref().unwrap().text, "32");
            assert_eq!(c.y.as_ref().unwrap().text, "-8");
        }
        _ => panic!("expected a costume"),
    }
    match &p.items[3] {
        Item::Sound(s) => {
            assert_eq!(s.name, "pop");
            assert!(s.x.is_none());
        }
        _ => panic!("expected a sound"),
    }
}

#[test]
fn blank_lines_become_batch_breaks() {
    let p = parse_program("move(1);\n\nmove(2);\n// note\nmove(3);\n").unwrap();
    let kinds: Vec<&str> = p
        .items
        .iter()
        .map(|i| match i {
            Item::BatchBreak => "break",
            Item::Stmt(_) => "stmt",
            _ => "other",
        })
        .collect();
    assert_eq!(kinds, vec!["stmt", "break", "stmt", "break", "stmt"]);
}

#[test]
fn module_comments_use_and_package() {
    let src = "//! Utilities\npackage math_utils {\n    extensions = [\"return\"],\n    dependencies = [\"basic\", \"more\"]\n}\nuse basic;\n";
    let p = parse_program(src).unwrap();
    assert_eq!(p.items.len(), 3);
    assert!(matches!(&p.items[0], Item::Comment(c) if c == "Utilities"));
    match &p.items[1] {
        Item::Package(pkg) => {
            assert_eq!(pkg.name, "math_utils");
            assert_eq!(pkg.extensions, vec!["return".to_string()]);
            assert_eq!(pkg.dependencies, vec!["basic".to_string(), "more".to_string()]);
            assert!(pkg.items.is_empty());
        }
        _ => panic!("expected a package"),
    }
    assert!(matches!(&p.items[2], Item::Use(u) if u == "basic"));
}

#[test]
fn parse_error_points_at_the_failing_item() {
    let src = "move(1);\n  oops oops\n";
    let e = parse_program(src).unwrap_err();
    assert_eq!(e.offset, 11);
    let (line, text) = parse_error_location(src, e.offset);
    assert_eq!(line, 2);
    assert_eq!(text, "oops oops");
}

#[test]
fn parse_error_location_counts_lines_before_the_offset() {
    assert_eq!(parse_error_location("abc", 0), (1, "abc".to_string()));
    assert_eq!(parse_error_location("a\nb\r\nc", 4), (2, "b".to_string()));
    assert_eq!(parse_error_location("a\n", 2), (1, "a".to_string()));
    assert_eq!(parse_error_location("a\n\n  x  \n", 5), (3, "x".to_string()));
}
