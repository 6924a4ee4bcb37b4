use cube_combination_reader::history::CommandHistory;
use cube_combination_reader::build_tree::BuildTreeNode;
use cube_combination_reader::error::CSError;
use cube_combination_reader::fuse_key::FuseKey;
use cube_combination_reader::names::check_valid_cube_name;
use cube_combination_reader::tui::{get_commands_hashmap, Command, Pending, TUI};

fn run(t: &mut TUI, line: &str) -> (String, Result<Pending, CSError>) {
    let args: Vec<String> = line.split_whitespace().map(|s| s.to_string()).collect();
    let mut out = String::new();
    let r = t.run_command(&args, &mut out);
    (out, r)
}

fn ok(t: &mut TUI, line: &str) -> String {
    let (out, r) = run(t, line);
    match r {
        Ok(_) => out,
        Err(e) => panic!("{} failed: {}", line, e.describe()),
    }
}

#[test]
fn command_table_has_every_name() {
    let table = get_commands_hashmap();
    assert_eq!(table.len(), 28);
    assert_eq!(table[0].0, "add");
    assert!(matches!(table[0].1.command, Command::Add));
    let fuse = table.iter().find(|e| e.0 == "fuse").unwrap();
    assert!(matches!(fuse.1.command, Command::Link));
    assert_eq!(fuse.1.usage, "<fuse|link (cube_name) with (cube_1) (cube_2)?>");
}

#[test]
fn a_fresh_interpreter_is_saved_and_not_done() {
    let t: TUI = Default::default();
    assert!(t.b_has_saved());
    assert!(!t.is_program_done());
    assert_eq!(t.cube_count(None), 0);
}

#[test]
fn save_flag_follows_the_command() {
    let mut t = TUI::default();
    t.set_save_flag("read");
    assert!(t.b_has_saved());
    t.set_save_flag("add");
    assert!(!t.b_has_saved());
    t.mark_saved();
    t.set_save_flag("write_to");
    assert!(t.b_has_saved());
    t.set_save_flag("no_such_command");
    assert!(!t.b_has_saved());
}

#[test]
fn run_line_sets_the_save_flag() {
    let mut t = TUI::default();
    let mut out = String::new();
    assert!(t.run_line("   ", &mut out).is_none());
    assert!(t.b_has_saved());
    let r = t.run_line("add a 1", &mut out);
    assert!(matches!(r, Some(Ok(Pending::Nothing))));
    assert_eq!(out, "Cube \"a\" added\n");
    assert!(!t.b_has_saved());
}

#[test]
fn exit_asks_only_when_unsaved() {
    let mut t = TUI::default();
    assert!(matches!(run(&mut t, "exit").1, Ok(Pending::Nothing)));
    assert!(t.is_program_done());
    let mut t = TUI::default();
    let mut out = String::new();
    t.run_line("add a 1", &mut out);
    match run(&mut t, "exit").1 {
        Ok(Pending::Exit(q)) => assert_eq!(q, "There may be unsaved cube data not saved yet.\nContinue (y/n)? (n default)"),
        _ => panic!("exit should ask"),
    }
    assert!(!t.is_program_done());
    t.exit_confirmed();
    assert!(t.is_program_done());
}

#[test]
fn remove_all_asks_then_clears() {
    let mut t = TUI::default();
    let mut out = String::new();
    t.run_line("add a 1 b 2", &mut out);
    match run(&mut t, "drop_all").1 {
        Ok(Pending::RemoveAll(q)) => assert_eq!(q, "All cube data will be erased without saving.\nContinue (y/n)? (n default)"),
        _ => panic!("remove_all should ask"),
    }
    assert_eq!(t.cube_count(None), 2);
    let mut out = String::new();
    t.remove_all_confirmed(&mut out);
    assert_eq!(out, "All cubes in the program have been removed.\n");
    assert_eq!(t.cube_count(None), 0);
    assert!(t.b_has_saved());
}

#[test]
fn save_to_refuses_the_temporary_file() {
    let mut t = TUI::default();
    match run(&mut t, "save_to temp.sav").1 {
        Err(CSError::InvalidArguments(s)) => assert_eq!(
            s,
            "File name 'temp.sav' shouldn't be a file name because the file will be overwritten after this program exits."
        ),
        _ => panic!("temp.sav should be refused"),
    }
    match run(&mut t, "write_to out.txt").1 {
        Ok(Pending::SaveTo(f, q)) => {
            assert_eq!(f, "out.txt");
            assert_eq!(q, "Writing to this file name, \"out.txt\", will be overwritten.\nContinue (y/n)? (n default)");
        },
        _ => panic!("save_to should ask"),
    }
    assert!(matches!(run(&mut t, "save_to").1, Err(CSError::InvalidArguments(ref s)) if s == "<save_to (file_name)>"));
}

#[test]
fn load_from_asks_only_when_unsaved() {
    let mut t = TUI::default();
    assert!(matches!(run(&mut t, "load_from f.txt").1, Ok(Pending::LoadFrom(ref f, None)) if f == "f.txt"));
    t.set_save_flag("add");
    match run(&mut t, "load_from f.txt").1 {
        Ok(Pending::LoadFrom(f, Some(q))) => {
            assert_eq!(f, "f.txt");
            assert_eq!(q, "All unsaved cube data in this program will be erased before loading this file f.txt.\nContinue (y/n)? (n default)");
        },
        _ => panic!("load_from should ask"),
    }
}

#[test]
fn saved_text_loads_back() {
    let mut t = TUI::default();
    ok(&mut t, "add b 2 a 1 c -1");
    ok(&mut t, "link a with b c");
    ok(&mut t, "link c with b");
    let saved = t.save_text();
    assert_eq!(
        saved,
        "n: a; t: 1; fb: b|c; ct: ;\nn: b; t: 2; fb: ; ct: a,c;\nn: c; t: -1; fb: b?; ct: a;\n"
    );
    let mut u = TUI::default();
    u.set_save_flag("add");
    let mut out = String::new();
    let r = u.load_from_text(saved.as_str(), &mut out);
    assert!(r.is_ok());
    assert!(u.b_has_saved());
    assert!(out.ends_with("File successfully read.\n"));
    assert_eq!(u.save_text(), saved);
}

#[test]
fn load_reports_a_bad_file() {
    let mut t = TUI::default();
    let mut out = String::new();
    let r = t.load_from_text("n: a; t: 1;", &mut out);
    assert!(matches!(r, Err(CSError::ParseError(f, _)) if f == "TUI::read_to_file"));
    let r = t.load_from_text("n: a; t: x; fb: ; ct: ;", &mut out);
    assert!(matches!(r, Err(CSError::OtherError(_))));
    assert!(!t.b_has_saved() || t.cube_count(None) == 0);
}

#[test]
fn usage_lists_each_usage_once_sorted() {
    let mut t = TUI::default();
    let out = ok(&mut t, "usage");
    assert!(out.starts_with("Format: <command arg1 arg2 ...>\n+ means more than 1 set of arguments can also be added\n? means that an argument is optional\nCommand may have more than 1 name delimited with |\n<add ((cube_name) (Tier))+>\n\tAdds cube with name and tier\n<build_tree (cube_name)>\n"));
    assert!(out.ends_with("<usage>\n\tSees all commands used within the program\n"));
    assert_eq!(out.matches("<destroy|drop|remove (cube_name)+>").count(), 1);
    assert_eq!(out.matches("\n\t").count(), 19);
}

#[test]
fn cube_keys_are_sorted_and_filtered() {
    let mut t = TUI::default();
    ok(&mut t, "add pear 1 Apple 2 grape 3");
    assert_eq!(t.cube_keys(None), vec!["Apple".to_string(), "grape".to_string(), "pear".to_string()]);
    assert_eq!(t.cube_keys(Some("AP".to_string())), vec!["Apple".to_string(), "grape".to_string()]);
    assert_eq!(t.cube_count(Some("AP".to_string())), 2);
    assert_eq!(t.cube_count(Some("zz".to_string())), 0);
    assert!(!t.cube_exists(&"apple".to_string()));
}

#[test]
fn command_helpers_for_the_window() {
    let t = TUI::default();
    let names = t.sorted_command_names();
    assert_eq!(names.len(), 28);
    assert_eq!(names[0], "add");
    assert_eq!(names[27], "write_to");
    assert_eq!(t.first_command_containing("link"), Some("link".to_string()));
    assert_eq!(t.first_command_containing("_all"), Some("destroy_all".to_string()));
    assert_eq!(t.first_command_containing("xyz"), None);
    assert_eq!(t.command_hints("UNLINK"), "unlink. unlink_all. ");
}

#[test]
fn graph_describes_itself() {
    let mut t = TUI::default();
    assert_eq!(t.cdll.dll_text(), "CubeDLL{ pointer:[(None)], hashmap:[] }");
    ok(&mut t, "add a 1 b 2");
    ok(&mut t, "read b");
    assert_eq!(t.cdll.dll_text(), "CubeDLL{ pointer:[\"b\"], hashmap:[\"a\",\"b\"] }");
}

#[test]
fn pair_keys_ignore_order() {
    let a = "apple".to_string();
    let b = "banana".to_string();
    assert_eq!(FuseKey::new_pair(&a, &b).to_text(), "(apple|banana)");
    assert_eq!(FuseKey::new_pair(&b, &a).to_text(), "(apple|banana)");
    assert!(FuseKey::new_pair(&a, &b).same_as(&FuseKey::new_pair(&b, &a)));
    assert_eq!(FuseKey::new_single(&a).to_text(), "(apple?)");
    assert!(FuseKey::new_pair(&a, &b).contains_key(&b));
    let k = FuseKey::new_pair(&a, &b).into_rewrite_key(&b, &"aa".to_string());
    assert_eq!(k.to_text(), "(aa|apple)");
}

#[test]
fn cube_names_allow_letters_digits_brackets() {
    assert!(check_valid_cube_name("Red(2)").is_ok());
    assert!(check_valid_cube_name("?").is_ok());
    assert!(matches!(check_valid_cube_name(""), Err(CSError::NameSyntax(ref s)) if s.is_empty()));
    assert!(matches!(check_valid_cube_name("a?"), Err(CSError::NameSyntax(ref s)) if s == "a?"));
    assert!(check_valid_cube_name("é").is_err());
}

#[test]
fn tree_node_adds_each_cube_once() {
    let mut n = BuildTreeNode::new();
    let a = "a".to_string();
    assert!(n.add_cube(&a));
    assert!(!n.add_cube(&a));
    assert!(n.add_cube(&"b".to_string()));
    n.add_fuse_key(&a, &FuseKey::new_single(&"b".to_string()));
    assert_eq!(n.parent, Some("a".to_string()));
    let mut out = String::new();
    n.print_simple(&mut out);
    assert_eq!(out, "[0] => a => (b?)\n[1] => b\n");
    let mut out = String::new();
    n.print_tree(&mut out);
    assert_eq!(out, "a\na/b\n");
}

#[test]
fn command_history_steps_and_keeps_a_bound() {
    let mut h = CommandHistory::new(2);
    assert!(h.up().is_none());
    assert!(h.down().is_none());
    h.record("add".to_string(), "a 1".to_string());
    h.record("read".to_string(), "a".to_string());
    h.record("find".to_string(), "contains a".to_string());
    assert_eq!(h.len(), 2);
    assert_eq!(h.up(), Some(("find".to_string(), "contains a".to_string())));
    assert_eq!(h.up(), Some(("find".to_string(), "contains a".to_string())));
    assert_eq!(h.down(), Some(("read".to_string(), "a".to_string())));
    assert_eq!(h.down(), Some(("read".to_string(), "a".to_string())));
}
