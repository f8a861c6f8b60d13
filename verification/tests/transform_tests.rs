use scrust::ast::{Item, Stmt};
use scrust::codegen::{type_str, CodeGenerator};
use scrust::ast::Type;
use scrust::merge::get_unique_id;
use scrust::parser::parse_program;
use scrust::transform::{is_helper, transform_program, transform_program_checked, TransformContext};

#[test]
fn locals_get_fresh_slots_and_die_with_their_scope() {
    let mut ctx = TransformContext::new(Vec::new());
    let a = ctx.define_local("a".to_string());
    assert_eq!(a, 1);
    assert_eq!(ctx.get_local("a"), Some(1));
    ctx.enter_scope();
    let b = ctx.define_local("b".to_string());
    assert_eq!(b, 2);
    assert_eq!(ctx.get_local("b"), Some(2));
    ctx.leave_scope();
    assert_eq!(ctx.get_local("b"), None);
    assert_eq!(ctx.get_local("a"), Some(1));
    let t = ctx.define_temp();
    assert_eq!(t, 3);
    let c = ctx.define_local("c".to_string());
    assert_eq!(c, 4);
}

#[test]
fn inner_declaration_hides_and_then_uncovers() {
    let mut ctx = TransformContext::new(Vec::new());
    ctx.define_local("x".to_string());
    ctx.enter_scope();
    ctx.define_local("x".to_string());
    assert_eq!(ctx.get_local("x"), Some(2));
    ctx.leave_scope();
    assert_eq!(ctx.get_local("x"), None);
}

#[test]
fn helpers_of_the_runtime() {
    assert!(is_helper("sys_alloc"));
    assert!(is_helper("sys_free"));
    assert!(is_helper("stack_set"));
    assert!(!is_helper("sys_alloc2"));
    assert!(!is_helper("main"));
}

#[test]
fn unique_ids_count_up() {
    let mut c: u64 = 0;
    assert_eq!(get_unique_id(&mut c), "pkg_proc_1");
    assert_eq!(c, 1);
    assert_eq!(get_unique_id(&mut c), "pkg_proc_2");
    let mut d: u64 = 41;
    assert_eq!(get_unique_id(&mut d), "pkg_proc_42");
}

#[test]
fn program_without_frames_is_unchanged() {
    let src = "#[on_flag_clicked]\nfn start() {\n    move_steps(10);\n}\n";
    let mut p = parse_program(src).unwrap();
    let before = format!("{:?}", p);
    let mut id: u64 = 0;
    transform_program(&mut p, &Vec::new(), &mut id);
    assert_eq!(format!("{:?}", p), before);
    assert_eq!(id, 0);
}

#[test]
fn uses_are_dropped_and_package_procedures_linked() {
    let pkg_src = "package math_utils {\n    dependencies = []\n}\nproc add(a: number, b: number) -> number {\n    return a + b;\n}\n";
    let pkg_items = parse_program(pkg_src).unwrap().items;
    let pkg = scrust::project::assemble_package(&pkg_items).unwrap();
    let src = "use math_utils;\n#[on_flag_clicked]\nfn start() {\n    say(math_utils::add(1, 2));\n}\n";
    let mut p = parse_program(src).unwrap();
    let mut id: u64 = 0;
    assert!(transform_program_checked(&mut p, &vec![pkg], &mut id));
    assert_eq!(id, 1);
    assert!(!p.items.iter().any(|i| matches!(i, Item::Use(_))));
    assert!(p
        .items
        .iter()
        .any(|i| matches!(i, Item::Procedure(d) if d.name.starts_with("pkg_proc_1"))));
    assert!(!format!("{:?}", p).contains("math_utils::add"));
}

#[test]
fn unknown_package_calls_stay_as_written() {
    let src = "fn go() {\n    say(nowhere::thing(1));\n}\n";
    let mut p = parse_program(src).unwrap();
    let mut id: u64 = 5;
    assert!(transform_program_checked(&mut p, &Vec::new(), &mut id));
    assert_eq!(id, 5);
    assert!(format!("{:?}", p).contains("nowhere::thing"));
}

#[test]
fn procedure_with_let_gets_a_frame() {
    let src = "proc f(a: number) {\n    let t = a + 1;\n    say(t);\n}\n";
    let mut p = parse_program(src).unwrap();
    let mut id: u64 = 0;
    transform_program(&mut p, &Vec::new(), &mut id);
    let has_ram = p
        .items
        .iter()
        .any(|i| matches!(i, Item::Variable(v) if v.name == "_RAM"));
    assert!(has_ram);
    let lets = p.items.iter().any(|i| match i {
        Item::Procedure(d) => d.body.iter().any(|s| matches!(s, Stmt::Let(_, _, _))),
        _ => false,
    });
    assert!(!lets);
}

#[test]
fn code_generator_basics() {
    let g = CodeGenerator::new();
    let p = parse_program("x = 2.50;\n").unwrap();
    assert_eq!(g.generate(&p), "x = 2.5;\n\n");
    assert_eq!(type_str(&Type::Boolean), "boolean");
    assert_eq!(type_str(&Type::Unknown), "unknown");
    let mut g = CodeGenerator::new();
    g.indent();
    assert_eq!(g.generate(&parse_program("").unwrap()), "");
}

#[test]
fn code_generator_writes_procedures() {
    let src = "proc jump(height: number) -> number {\n    change_y_by(height);\n    say(\"hi\");\n}\n";
    let p = parse_program(src).unwrap();
    let out = CodeGenerator::new().generate(&p);
    assert_eq!(
        out,
        "proc jump(height: number) -> number {\n    change_y_by(height);\n    say(\"hi\");\n}\n\n"
    );
}

#[test]
fn numbers_are_written_in_shortest_form() {
    let p = parse_program("x = 007.50;\ny = -0.0;\nz = 12;\n").unwrap();
    assert_eq!(CodeGenerator::new().generate(&p), "x = 7.5;\n\ny = -0;\n\nz = 12;\n\n");
    assert_eq!(scrust::text::number_display("1.000"), "1");
    assert_eq!(scrust::text::number_display("-3.140"), "-3.14");
    assert_eq!(scrust::text::u64_decimal(0), "0");
    assert_eq!(scrust::text::u64_decimal(90210), "90210");
}

#[test]
fn code_generator_writes_control_flow_and_declarations() {
    let src = "public var score = 0;\nlist names = [\"a\", \"b\"];\n#[on_flag_clicked]\nfn start() {\n    if score > 1 {\n        say(\"big\");\n    } else {\n        say(\"small\");\n    }\n}\n";
    let p = parse_program(src).unwrap();
    let out = CodeGenerator::new().generate(&p);
    assert_eq!(
        out,
        "public  var score = 0;\n\n list names = [\"a\", \"b\"];\n\n#[on_flag_clicked]\nfn start() {\n    if score > 1 {\n        say(\"big\");\n    } else {\n        say(\"small\");\n    }\n}\n\n"
    );
}

#[test]
fn successive_temporaries_are_distinct() {
    let mut ctx = TransformContext::new(Vec::new());
    let slots: Vec<i32> = (0..4).map(|_| ctx.define_temp()).collect();
    assert_eq!(slots, vec![1, 2, 3, 4]);
}

#[test]
fn leaving_a_scope_restores_the_outer_locals() {
    let mut ctx = TransformContext::new(Vec::new());
    ctx.define_local("a".to_string());
    ctx.define_local("b".to_string());
    ctx.enter_scope();
    ctx.define_local("c".to_string());
    ctx.define_local("d".to_string());
    ctx.define_local("e".to_string());
    ctx.leave_scope();
    assert_eq!(ctx.get_local("a"), Some(1));
    assert_eq!(ctx.get_local("b"), Some(2));
    assert_eq!(ctx.get_local("c"), None);
    assert_eq!(ctx.get_local("d"), None);
    assert_eq!(ctx.get_local("e"), None);
}
