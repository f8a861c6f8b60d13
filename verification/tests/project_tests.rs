use scrust::ast::{Item, Visibility};
use scrust::checker::check_program;
use scrust::config::{DetailedExtensionConfig, ExtensionConfig};
use scrust::config::merge_extensions;
use scrust::parser::parse_program;
use scrust::project::{
    assemble_package, format_path, output_file_name, package_error_message, project_config_text,
    project_extensions, share_public_variables, LoadedExtension, PackageError,
};

fn ext(id: &str, pid: Option<&str>) -> LoadedExtension {
    LoadedExtension { id: id.to_string(), project_id: pid.map(|s| s.to_string()) }
}

#[test]
fn one_warning_per_top_level_statement() {
    let p = parse_program("move(1);\nfn f() { }\nsay(2);\n").unwrap();
    let w = check_program(&p);
    assert_eq!(w.len(), 2);
    assert_eq!(
        w[0],
        "Warning: Top-level statement found. It will be compiled as a hat-less block."
    );
    assert!(check_program(&parse_program("var x = 1;\n").unwrap()).is_empty());
}

#[test]
fn package_file_needs_exactly_one_declaration() {
    let ok = parse_program("package p {\n}\nproc a() { }\nvar v = 1;\n").unwrap();
    let pkg = assemble_package(&ok.items).unwrap();
    assert_eq!(pkg.name, "p");
    assert_eq!(pkg.items.len(), 2);
    let none = parse_program("proc a() { }\n").unwrap();
    assert_eq!(assemble_package(&none.items).unwrap_err(), PackageError::MissingDeclaration);
    let two = parse_program("package p {\n}\npackage q {\n}\n").unwrap();
    assert_eq!(assemble_package(&two.items).unwrap_err(), PackageError::MultipleDeclarations);
    assert_eq!(
        package_error_message(PackageError::MultipleDeclarations, "a.sr"),
        "Package file 'a.sr' contains multiple package declarations"
    );
    assert_eq!(
        package_error_message(PackageError::MissingDeclaration, "b.sr"),
        "Package file 'b.sr' must contain a package declaration"
    );
}

#[test]
fn public_variables_become_global_once() {
    let mut stage = parse_program("var score = 0;\n").unwrap().items;
    let sprite = parse_program("public var score = 5;\npublic var lives = 3;\nvar local = 1;\npublic var lives = 9;\n")
        .unwrap()
        .items;
    share_public_variables(&mut stage, &sprite);
    let names: Vec<String> = stage
        .iter()
        .filter_map(|i| match i {
            Item::Variable(v) => Some(v.name.clone()),
            _ => None,
        })
        .collect();
    assert_eq!(names, vec!["score".to_string(), "lives".to_string()]);
    match &stage[1] {
        Item::Variable(v) => assert_eq!(v.visibility, Visibility::Public),
        _ => panic!("expected a variable"),
    }
}

#[test]
fn project_extensions_are_sorted_and_unique() {
    let exts = vec![
        ext("pen", None),
        ext("return", None),
        ext("music", None),
        ext("pen", None),
        ext("json", Some("https://example.org/json.js")),
    ];
    let r = project_extensions(&exts);
    assert_eq!(r.ids, vec!["json".to_string(), "music".to_string(), "pen".to_string()]);
    assert_eq!(r.urls, vec![("json".to_string(), "https://example.org/json.js".to_string())]);
    assert!(r.non_standard);
    let plain = project_extensions(&vec![ext("music", None), ext("pen", Some("pen"))]);
    assert_eq!(plain.ids, vec!["music".to_string(), "pen".to_string()]);
    assert!(plain.urls.is_empty());
    assert!(!plain.non_standard);
}

#[test]
fn package_extensions_are_added_once() {
    let configured = Some(vec![
        ExtensionConfig::Simple("pen".to_string()),
        ExtensionConfig::Detailed(DetailedExtensionConfig {
            name: Some("Return".to_string()),
            id: Some("return".to_string()),
            source: None,
            definition: None,
        }),
    ]);
    let merged = merge_extensions(&configured, &vec!["return".to_string(), "music".to_string(), "music".to_string()]);
    assert_eq!(merged.len(), 3);
    assert!(matches!(&merged[2], ExtensionConfig::Simple(s) if s == "music"));
    let from_none = merge_extensions(&None, &vec!["pen".to_string()]);
    assert_eq!(from_none.len(), 1);
}

#[test]
fn file_names_and_paths() {
    assert_eq!(format_path("a\\b\\c.sb3"), "a/b/c.sb3");
    assert_eq!(format_path("plain/path"), "plain/path");
    assert_eq!(output_file_name("my/game\\v1"), "my_game_v1.sb3");
    assert_eq!(output_file_name(""), ".sb3");
}

#[test]
fn new_project_configuration() {
    let text = project_config_text("demo");
    assert_eq!(
        text,
        "[project]\nname = \"demo\"\noutput = \"dist/project.sb3\"\n\n[stage]\npath = \"src/stage.sr\"\n\n[[sprite]]\nname = \"Sprite1\"\npath = \"src/sprite.sr\"\n"
    );
}
