use scrust::codegen::CodeGenerator;
use scrust::parser::parse_program;

#[test]
fn assets_are_written_as_they_are_read() {
    let src = "costume \"idle\" \"assets/player_idle.svg\";\ncostume \"run\" \"assets/run.svg\" 32 16;\nsound \"jump\" \"assets/jump.wav\";\n";
    let p = parse_program(src).unwrap();
    let out = CodeGenerator::new().generate(&p);
    assert!(out.contains("costume \"idle\" \"assets/player_idle.svg\";\n"));
    assert!(out.contains("costume \"run\" \"assets/run.svg\" 32 16;\n"));
    assert!(out.contains("sound \"jump\" \"assets/jump.wav\";\n"));
    let again = parse_program(&out).unwrap();
    let out2 = CodeGenerator::new().generate(&again);
    assert!(out2.contains("costume \"idle\" \"assets/player_idle.svg\";\n"));
    assert!(out2.contains("costume \"run\" \"assets/run.svg\" 32 16;\n"));
    assert!(out2.contains("sound \"jump\" \"assets/jump.wav\";\n"));
}
