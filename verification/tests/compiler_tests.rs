use scrust::compiler::{asset_paths, compile_target, md5_hex, CompileError};
use scrust::parser::parse_program;
use scrust::sb3::{Block, Field, JsonValue};

fn opcodes(blocks: &[(String, Block)]) -> Vec<String> {
    blocks
        .iter()
        .map(|(_, b)| match b {
            Block::Normal(n) => n.opcode.clone(),
            Block::TopLevelPrimitive(_) => "primitive".to_string(),
        })
        .collect()
}

#[test]
fn md5_hex_of_known_data() {
    assert_eq!(md5_hex(&Vec::new()), "d41d8cd98f00b204e9800998ecf8427e");
    assert_eq!(md5_hex(&b"abc".to_vec()), "900150983cd24fb0d6963f7d28e17f72");
}

#[test]
fn flag_script_compiles_to_hat_and_block() {
    let p = parse_program("#[on_flag_clicked]\nfn start() {\n    move_steps(10);\n}\n").unwrap();
    let (t, ins) = compile_target(&p, false, None, None, &Vec::new()).unwrap();
    assert!(ins.is_empty());
    assert!(!t.is_stage);
    assert_eq!(t.name, "Sprite");
    assert_eq!(t.volume, 100);
    assert_eq!(t.direction, Some(90));
    assert_eq!(t.rotation_style.as_deref(), Some("all around"));
    let ops = opcodes(&t.blocks);
    assert!(ops.contains(&"event_whenflagclicked".to_string()));
    assert!(ops.contains(&"motion_movesteps".to_string()));
    let (hat_id, hat) = t
        .blocks
        .iter()
        .find(|(_, b)| matches!(b, Block::Normal(n) if n.opcode == "event_whenflagclicked"))
        .unwrap();
    let (move_id, mv) = t
        .blocks
        .iter()
        .find(|(_, b)| matches!(b, Block::Normal(n) if n.opcode == "motion_movesteps"))
        .unwrap();
    match (hat, mv) {
        (Block::Normal(h), Block::Normal(m)) => {
            assert!(h.top_level);
            assert_eq!(h.next.as_ref(), Some(move_id));
            assert_eq!(m.parent.as_ref(), Some(hat_id));
            assert!(!m.top_level);
        }
        _ => panic!("expected normal blocks"),
    }
}

#[test]
fn stage_target_settings() {
    let p = parse_program("say(\"hi\");\n").unwrap();
    let (t, _) = compile_target(&p, true, None, None, &Vec::new()).unwrap();
    assert!(t.is_stage);
    assert_eq!(t.name, "Stage");
    assert_eq!(t.tempo, Some(60));
    assert_eq!(t.video_transparency, Some(50));
    assert_eq!(t.video_state.as_deref(), Some("on"));
    assert!(t.visible.is_none());
}

#[test]
fn unknown_block_is_an_error() {
    let p = parse_program("frobnicate(1);\n").unwrap();
    match compile_target(&p, false, None, None, &Vec::new()) {
        Err(CompileError::UnknownBlock(name)) => assert_eq!(name, "frobnicate"),
        other => panic!("expected an unknown block, got {:?}", other.map(|_| ())),
    }
}

#[test]
fn too_few_arguments_is_an_error() {
    let p = parse_program("move_steps();\n").unwrap();
    match compile_target(&p, false, None, None, &Vec::new()) {
        Err(CompileError::TooFewArguments(name, n)) => {
            assert_eq!(name, "move_steps");
            assert_eq!(n, 1);
        }
        other => panic!("expected too few arguments, got {:?}", other.map(|_| ())),
    }
}

#[test]
fn costumes_and_sounds_are_named_by_their_digest() {
    let p = parse_program("costume \"idle\" \"art/idle.svg\" 32 16;\nsound \"pop\" \"snd/pop.wav\";\n").unwrap();
    let paths = asset_paths(&p);
    assert_eq!(paths, vec!["art/idle.svg".to_string(), "snd/pop.wav".to_string()]);
    let assets = vec![
        ("art/idle.svg".to_string(), Some("svg".to_string()), b"<svg/>".to_vec()),
        ("snd/pop.wav".to_string(), Some("wav".to_string()), b"RIFF".to_vec()),
    ];
    let (t, ins) = compile_target(&p, false, None, None, &assets).unwrap();
    assert_eq!(t.costumes.len(), 1);
    let c = &t.costumes[0];
    assert_eq!(c.name, "idle");
    assert_eq!(c.asset_id, "677433a0892aaed7b7d2628c313c9775");
    assert_eq!(c.md5ext, "677433a0892aaed7b7d2628c313c9775.svg");
    assert_eq!(c.data_format, "svg");
    assert_eq!(c.rotation_center_x.text, "32");
    assert_eq!(c.rotation_center_y.text, "16");
    assert_eq!(t.sounds.len(), 1);
    let s = &t.sounds[0];
    assert_eq!(s.md5ext, "202125ffec234c941c5e136c76367b95.wav");
    assert_eq!(s.rate, Some(44100));
    assert_eq!(
        ins,
        vec![
            ("art/idle.svg".to_string(), "677433a0892aaed7b7d2628c313c9775.svg".to_string()),
            ("snd/pop.wav".to_string(), "202125ffec234c941c5e136c76367b95.wav".to_string()),
        ]
    );
}

#[test]
fn variables_and_lists_are_declared() {
    let p = parse_program("var score = 0;\nlist names = [\"a\", \"b\"];\n").unwrap();
    let (t, _) = compile_target(&p, true, None, None, &Vec::new()).unwrap();
    assert_eq!(t.variables.len(), 1);
    assert_eq!(t.variables[0].1 .0, "score");
    assert_eq!(t.lists.len(), 1);
    assert_eq!(t.lists[0].1 .0, "names");
    assert_eq!(t.lists[0].1 .1.len(), 2);
}

#[test]
fn assets_without_extension_take_the_default() {
    let p = parse_program("costume \"a\" \"art/a\";\nsound \"b\" \"snd/b\";\n").unwrap();
    let assets = vec![
        ("art/a".to_string(), None, b"abc".to_vec()),
        ("snd/b".to_string(), None, Vec::new()),
    ];
    let (t, ins) = compile_target(&p, false, None, None, &assets).unwrap();
    assert_eq!(t.costumes[0].data_format, "svg");
    assert_eq!(t.costumes[0].md5ext, "900150983cd24fb0d6963f7d28e17f72.svg");
    assert_eq!(t.costumes[0].rotation_center_x.text, "0");
    assert_eq!(t.sounds[0].data_format, "wav");
    assert_eq!(ins[1].1, "d41d8cd98f00b204e9800998ecf8427e.wav");
}

fn normal<'a>(t: &'a scrust::sb3::Target, opcode: &str) -> Vec<(&'a String, &'a scrust::sb3::NormalBlock)> {
    t.blocks
        .iter()
        .filter_map(|(id, b)| match b {
            Block::Normal(n) if n.opcode == opcode => Some((id, n)),
            _ => None,
        })
        .collect()
}

fn field_text(n: &scrust::sb3::NormalBlock, key: &str) -> String {
    let (_, f) = n.fields.iter().find(|(k, _)| k == key).unwrap();
    match f {
        Field::Generic(v) => match &v[0] {
            JsonValue::Str(s) => s.clone(),
            _ => panic!("expected text"),
        },
    }
}

#[test]
fn greater_than_hat_names_its_menu_in_capitals() {
    let p = parse_program("#[on_greater_than(\"loudness\", 10)]\nfn loud() {\n    say(\"!\");\n}\n").unwrap();
    let (t, _) = compile_target(&p, false, None, None, &Vec::new()).unwrap();
    let hats = normal(&t, "event_whengreaterthan");
    assert_eq!(hats.len(), 1);
    assert_eq!(field_text(hats[0].1, "WHENGREATERTHANMENU"), "LOUDNESS");
    assert!(hats.iter().all(|(id, _)| id.len() == 36));
}

#[test]
fn menus_translate_special_targets() {
    let p = parse_program("go_to(\"mouse-pointer\");\ncreate_clone_of(\"myself\");\n").unwrap();
    let (t, _) = compile_target(&p, false, None, None, &Vec::new()).unwrap();
    let menus = normal(&t, "motion_goto_menu");
    assert_eq!(menus.len(), 1);
    assert!(menus[0].1.shadow);
    assert_eq!(field_text(menus[0].1, "TO"), "_mouse_");
    let clones = normal(&t, "control_create_clone_of_menu");
    assert_eq!(field_text(clones[0].1, "CLONE_OPTION"), "_myself_");
}

#[test]
fn procedure_calls_carry_their_argument_ids() {
    let p = parse_program("proc hop(h: number) {\n    change_y_by(h);\n}\nhop(5);\n").unwrap();
    let (t, _) = compile_target(&p, false, None, None, &Vec::new()).unwrap();
    let calls = normal(&t, "procedures_call");
    assert_eq!(calls.len(), 1);
    let m = calls[0].1.mutation.as_ref().unwrap();
    assert_eq!(m.proccode.as_deref(), Some("hop %n"));
    let ids = m.argumentids.as_ref().unwrap();
    assert!(ids.starts_with("[\"") && ids.ends_with("\"]"));
    assert_eq!(m.warp.as_deref(), Some("false"));
    assert_eq!(normal(&t, "procedures_definition").len(), 1);
}

fn js(v: &JsonValue) -> String {
    format!("{:?}", v)
}

fn block_at<'a>(blocks: &'a [(String, Block)], id: &str) -> &'a scrust::sb3::NormalBlock {
    match &blocks.iter().find(|(k, _)| k == id).unwrap().1 {
        Block::Normal(n) => n,
        _ => panic!("expected a normal block"),
    }
}

fn find_op<'a>(blocks: &'a [(String, Block)], op: &str) -> (&'a String, &'a scrust::sb3::NormalBlock) {
    blocks
        .iter()
        .find_map(|(k, b)| match b {
            Block::Normal(n) if n.opcode == op => Some((k, n)),
            _ => None,
        })
        .unwrap()
}

fn input<'a>(b: &'a scrust::sb3::NormalBlock, key: &str) -> &'a Vec<JsonValue> {
    match &b.inputs.iter().find(|(k, _)| k == key).unwrap().1 {
        scrust::sb3::Input::Generic(v) => v,
    }
}

#[test]
fn repeat_until_call_makes_a_loop_block() {
    let p = parse_program("repeat_until(touching(\"Edge\")) {\n    move_steps(10);\n}\n").unwrap();
    let (t, _) = compile_target(&p, false, None, None, &Vec::new()).unwrap();
    let (loop_id, lp) = find_op(&t.blocks, "control_repeat_until");
    assert!(lp.top_level);
    let (move_id, mv) = find_op(&t.blocks, "motion_movesteps");
    let sub = input(lp, "SUBSTACK");
    assert_eq!(js(&sub[0]), js(&JsonValue::Int(2)));
    assert_eq!(js(&sub[1]), js(&JsonValue::Str(move_id.clone())));
    assert_eq!(mv.parent.as_ref(), Some(loop_id));
    let cond = input(lp, "CONDITION");
    assert_eq!(js(&cond[0]), js(&JsonValue::Int(2)));
    let (touch_id, touch) = find_op(&t.blocks, "sensing_touchingobject");
    assert_eq!(js(&cond[1]), js(&JsonValue::Str(touch_id.clone())));
    assert_eq!(touch.parent.as_ref(), Some(loop_id));
}

#[test]
fn compound_assignment_changes_the_variable() {
    let p = parse_program("var SCORE = 0;\nSCORE += 1;\nSCORE = 5;\n").unwrap();
    let (t, _) = compile_target(&p, false, None, None, &Vec::new()).unwrap();
    let vid = t.variables.iter().find(|(_, (n, _))| n == "SCORE").unwrap().0.clone();
    let (change_id, change) = find_op(&t.blocks, "data_changevariableby");
    let value = input(change, "VALUE");
    assert_eq!(js(&value[0]), js(&JsonValue::Int(1)));
    match &value[1] {
        JsonValue::Array(a) => {
            assert_eq!(js(&a[0]), js(&JsonValue::Int(4)));
            match &a[1] {
                JsonValue::Num(n) => assert_eq!(n.text, "1"),
                other => panic!("expected a number, got {:?}", other),
            }
        }
        other => panic!("expected a primitive, got {:?}", other),
    }
    match &change.fields.iter().find(|(k, _)| k == "VARIABLE").unwrap().1 {
        Field::Generic(f) => {
            assert_eq!(js(&f[0]), js(&JsonValue::Str("SCORE".to_string())));
            assert_eq!(js(&f[1]), js(&JsonValue::Str(vid.clone())));
        }
    }
    let (_, set) = find_op(&t.blocks, "data_setvariableto");
    assert_eq!(set.parent.as_ref(), Some(change_id));
    assert_eq!(opcodes(&t.blocks).iter().filter(|o| *o == "data_changevariableby").count(), 1);
}

#[test]
fn blank_line_starts_a_new_script() {
    let p = parse_program("move_steps(1);\nmove_steps(2);\n\nmove_steps(3);\n").unwrap();
    let (t, _) = compile_target(&p, false, None, None, &Vec::new()).unwrap();
    let tops: Vec<&scrust::sb3::NormalBlock> = t
        .blocks
        .iter()
        .filter_map(|(_, b)| match b {
            Block::Normal(n) if n.top_level => Some(n),
            _ => None,
        })
        .collect();
    assert_eq!(tops.len(), 2);
    let first = tops.iter().find(|n| n.next.is_some()).unwrap();
    let second = block_at(&t.blocks, first.next.as_ref().unwrap());
    assert!(second.next.is_none());
    assert!(tops.iter().any(|n| n.next.is_none() && n.parent.is_none()));
}

#[test]
fn if_else_bodies_sit_under_the_if() {
    let p = parse_program("if touching(\"Edge\") {\n    move_steps(1);\n} else {\n    turn_right(15);\n}\n").unwrap();
    let (t, _) = compile_target(&p, false, None, None, &Vec::new()).unwrap();
    let (if_id, ifb) = find_op(&t.blocks, "control_if_else");
    let (move_id, mv) = find_op(&t.blocks, "motion_movesteps");
    let (turn_id, turn) = find_op(&t.blocks, "motion_turnright");
    assert_eq!(js(&input(ifb, "SUBSTACK")[1]), js(&JsonValue::Str(move_id.clone())));
    assert_eq!(js(&input(ifb, "SUBSTACK2")[1]), js(&JsonValue::Str(turn_id.clone())));
    assert_eq!(mv.parent.as_ref(), Some(if_id));
    assert_eq!(turn.parent.as_ref(), Some(if_id));
}

#[test]
fn procedure_definition_points_at_its_prototype() {
    let p = parse_program("proc jump(height: number) {\n    change_y_by(height);\n}\n").unwrap();
    let (t, _) = compile_target(&p, false, None, None, &Vec::new()).unwrap();
    let (def_id, def) = find_op(&t.blocks, "procedures_definition");
    assert!(def.top_level);
    let cb = input(def, "custom_block");
    assert_eq!(js(&cb[0]), js(&JsonValue::Int(1)));
    let proto_id = match &cb[1] {
        JsonValue::Str(s) => s.clone(),
        other => panic!("expected an id, got {:?}", other),
    };
    let proto = block_at(&t.blocks, &proto_id);
    assert_eq!(proto.opcode, "procedures_prototype");
    assert!(proto.shadow);
    assert_eq!(proto.parent.as_ref(), Some(def_id));
    let m = proto.mutation.as_ref().unwrap();
    assert_eq!(m.proccode.as_deref(), Some("jump %n"));
    let (body_id, body) = find_op(&t.blocks, "motion_changeyby");
    assert_eq!(def.next.as_ref(), Some(body_id));
    assert_eq!(body.parent.as_ref(), Some(def_id));
}

#[test]
fn join_of_three_nests_to_the_right() {
    let p = parse_program("say(join(\"A\", \"B\", \"C\"));\n").unwrap();
    let (t, _) = compile_target(&p, false, None, None, &Vec::new()).unwrap();
    let joins: Vec<(&String, &scrust::sb3::NormalBlock)> = t
        .blocks
        .iter()
        .filter_map(|(k, b)| match b {
            Block::Normal(n) if n.opcode == "operator_join" => Some((k, n)),
            _ => None,
        })
        .collect();
    assert_eq!(joins.len(), 2);
    let (outer_id, outer) = joins
        .iter()
        .find(|(_, n)| js(&input(n, "STRING1")[1]).contains("\"A\""))
        .unwrap();
    let (inner_id, inner) = joins.iter().find(|(k, _)| k != outer_id).unwrap();
    assert_eq!(js(&input(outer, "STRING2")[1]), js(&JsonValue::Str((*inner_id).clone())));
    assert!(js(&input(inner, "STRING1")[1]).contains("\"B\""));
    assert!(js(&input(inner, "STRING2")[1]).contains("\"C\""));
    assert_eq!(inner.parent.as_ref(), Some(*outer_id));
}

#[test]
fn binary_operands_keep_their_sides() {
    let p = parse_program("say(10 - 3);\n").unwrap();
    let (t, _) = compile_target(&p, false, None, None, &Vec::new()).unwrap();
    let (_, sub) = find_op(&t.blocks, "operator_subtract");
    assert!(js(&input(sub, "NUM1")[1]).contains("\"10\""));
    assert!(js(&input(sub, "NUM2")[1]).contains("\"3\""));
}

#[test]
fn go_to_menu_gets_its_shadow_block() {
    let p = parse_program("go_to(\"mouse-pointer\");\n").unwrap();
    let (t, _) = compile_target(&p, false, None, None, &Vec::new()).unwrap();
    let (goto_id, goto) = find_op(&t.blocks, "motion_goto");
    let (menu_id, menu) = find_op(&t.blocks, "motion_goto_menu");
    let to = input(goto, "TO");
    assert_eq!(js(&to[0]), js(&JsonValue::Int(1)));
    assert_eq!(js(&to[1]), js(&JsonValue::Str(menu_id.clone())));
    assert!(menu.shadow);
    assert_eq!(menu.parent.as_ref(), Some(goto_id));
    match &menu.fields.iter().find(|(k, _)| k == "TO").unwrap().1 {
        Field::Generic(f) => assert_eq!(js(&f[0]), js(&JsonValue::Str("_mouse_".to_string()))),
    }
}

#[test]
fn declarations_become_the_targets_data() {
    let src = "var a = 5;\npublic var b = 2;\nlist l = [1, \"x\"];\n";
    let p = parse_program(src).unwrap();
    let (sprite, _) = compile_target(&p, false, None, None, &Vec::new()).unwrap();
    let names: Vec<&str> = sprite.variables.iter().map(|(_, (n, _))| n.as_str()).collect();
    assert_eq!(names, vec!["a"]);
    assert!(js(&sprite.variables[0].1 .1).contains("\"5\""));
    assert_eq!(sprite.lists.len(), 1);
    assert_eq!(sprite.lists[0].1 .0, "l");
    assert_eq!(sprite.lists[0].1 .1.len(), 2);
    assert_eq!(js(&sprite.lists[0].1 .1[1]), js(&JsonValue::Str("x".to_string())));
    let (stage, _) = compile_target(&p, true, None, None, &Vec::new()).unwrap();
    let names: Vec<&str> = stage.variables.iter().map(|(_, (n, _))| n.as_str()).collect();
    assert_eq!(names, vec!["a", "b"]);
}

#[test]
fn boolean_literal_is_an_equality_of_texts() {
    let p = parse_program("say(false);\n").unwrap();
    let (t, _) = compile_target(&p, false, None, None, &Vec::new()).unwrap();
    let (_, eq) = find_op(&t.blocks, "operator_equals");
    assert!(js(&input(eq, "OPERAND1")[1]).contains("\"1\""));
    assert!(js(&input(eq, "OPERAND2")[1]).contains("\"0\""));
}

#[test]
fn a_comment_item_ends_a_script() {
    let p = parse_program("move_steps(1);\n// note\nmove_steps(2);\n").unwrap();
    let (t, _) = compile_target(&p, false, None, None, &Vec::new()).unwrap();
    let tops = t
        .blocks
        .iter()
        .filter(|(_, b)| matches!(b, Block::Normal(n) if n.top_level && n.x == Some(0) && n.y == Some(0)))
        .count();
    assert_eq!(tops, 2);
}
