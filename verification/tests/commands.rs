use cube_combination_reader::error::CSError;
use cube_combination_reader::text::IntParse;
use cube_combination_reader::tui::{Pending, TUI};

fn run(t: &mut TUI, line: &str) -> (String, Result<Pending, CSError>) {
    let args: Vec<String> = line.split_whitespace().map(|s| s.to_string()).collect();
    let mut out = String::new();
    let r = t.run_command(&args, &mut out);
    (out, r)
}

fn ok(t: &mut TUI, line: &str) -> String {
    let (out, r) = run(t, line);
    match r {
        Ok(_) => out,
        Err(e) => panic!("{} failed: {}", line, e.describe()),
    }
}

fn err(t: &mut TUI, line: &str) -> (String, CSError) {
    let (out, r) = run(t, line);
    match r {
        Ok(_) => panic!("{} should fail", line),
        Err(e) => (out, e),
    }
}

#[test]
fn add_writes_one_line_a_cube() {
    let mut t = TUI::default();
    assert_eq!(ok(&mut t, "add a 2 b 0"), "Cube \"a\" added\nCube \"b\" added\n");
    assert_eq!(t.cube_count(None), 2);
    assert!(t.cube_exists(&"a".to_string()));
}

#[test]
fn add_refuses_bad_shapes_and_names() {
    let mut t = TUI::default();
    let (_, e) = err(&mut t, "add a");
    assert!(matches!(e, CSError::InvalidArguments(ref s) if s == "<add ((cube_name) (Tier))+>"));
    let (_, e) = err(&mut t, "add");
    assert!(matches!(e, CSError::InvalidArguments(_)));
    let (_, e) = err(&mut t, "add ? 1");
    assert!(matches!(e, CSError::InvalidArguments(ref s) if s == "? cannot be added other than using it for linking"));
    let (_, e) = err(&mut t, "add a-b 1");
    assert!(matches!(e, CSError::NameSyntax(ref s) if s == "a-b"));
    let (_, e) = err(&mut t, "add x y");
    assert!(matches!(e, CSError::OtherError(IntParse::InvalidDigit)));
    let (_, e) = err(&mut t, "add x 99999999999");
    assert!(matches!(e, CSError::OtherError(IntParse::PosOverflow)));
    assert_eq!(t.cube_count(None), 0);
}

#[test]
fn add_stops_at_a_duplicate() {
    let mut t = TUI::default();
    let (out, e) = err(&mut t, "add a 1 a 2 b 3");
    assert_eq!(out, "Cube \"a\" added\n");
    assert!(matches!(e, CSError::DuplicateName(f, ref s) if f == "CubeDLL::add" && s == "a"));
    assert_eq!(t.cube_count(None), 1);
}

#[test]
fn tier_below_minus_one_becomes_minus_one() {
    let mut t = TUI::default();
    ok(&mut t, "add x -5");
    assert_eq!(
        ok(&mut t, "read x"),
        "Info of cube pointer: CubeStruct{ name:[\"x\"], tier:[-1], converts_to:[(None)], fused_by:[] }\n"
    );
    assert_eq!(ok(&mut t, "change_tier x -7"), "Tier changed to -1 instead of -7\n");
    ok(&mut t, "change_tier x 12");
    assert!(ok(&mut t, "read x").contains("tier:[12]"));
}

#[test]
fn change_tier_of_unknown_cube_makes_it_first() {
    let mut t = TUI::default();
    let (_, e) = err(&mut t, "change_tier ? 3");
    assert!(matches!(e, CSError::InvalidArguments(ref s) if s == "? does not have a tier"));
    assert!(t.cube_exists(&"?".to_string()));
}

#[test]
fn read_lists_the_cubes_converted_to() {
    let mut t = TUI::default();
    ok(&mut t, "add a 2 b 0");
    assert_eq!(ok(&mut t, "link a with b"), "Successfully linked cube \"a\" with \"b\"\n");
    assert_eq!(
        ok(&mut t, "read a"),
        "Info of cube pointer: CubeStruct{ name:[\"a\"], tier:[2], converts_to:[(None)], fused_by:[b?] }\n"
    );
    assert_eq!(
        ok(&mut t, "read b"),
        "Info of cube pointer: CubeStruct{ name:[\"b\"], tier:[0], converts_to:[\"a\"], fused_by:[] }\n\
         Associated fusions: CubeStruct{ name:[\"a\"], tier:[2], converts_to:[(None)], fused_by:[b?] }\n"
    );
}

#[test]
fn unlink_all_drops_the_conversions_to_the_cube() {
    let mut t = TUI::default();
    ok(&mut t, "add a 1 b 2");
    ok(&mut t, "link a with b");
    assert_eq!(ok(&mut t, "unlink_all a"), "Successfully unlinked cube \"a\"'s fused_by properties.\n");
    assert_eq!(
        ok(&mut t, "read b"),
        "Info of cube pointer: CubeStruct{ name:[\"b\"], tier:[2], converts_to:[(None)], fused_by:[] }\n"
    );
}

#[test]
fn link_pair_orders_the_key_and_read_all_shows_paths() {
    let mut t = TUI::default();
    ok(&mut t, "add a 1 b 2 c 3");
    assert_eq!(ok(&mut t, "link a with c b"), "Successfully linked cube \"a\" with \"c\" and \"b\"\n");
    assert_eq!(
        ok(&mut t, "read_all"),
        "Syntax: fused_by: [fuse key array (single/pair)] => [[this cube name]](tier) => converts_to: [cube name array]\n\
         fused_by: [\"b\"|\"c\"] => [[\"a\"]](1) => converts_to: []\n\
         fused_by: [] => [[\"b\"]](2) => converts_to: [\"a\"]\n\
         fused_by: [] => [[\"c\"]](3) => converts_to: [\"a\"]\n"
    );
    assert_eq!(
        ok(&mut t, "unlink b c in a"),
        "Fuse key has been deleted for cube a\nSuccessfully removed for cube \"a\"\n"
    );
    assert_eq!(ok(&mut t, "unlink c b in a"), "Fuse key has already been deleted for cube a\nCube \"a\" has already been removed for \"c\" as a conversion\nCube \"a\" has already been removed for \"b\" as a conversion\nSuccessfully removed for cube \"a\"\n");
}

#[test]
fn link_refuses_itself_and_unknown_parts() {
    let mut t = TUI::default();
    ok(&mut t, "add a 1 b 2");
    let (_, e) = err(&mut t, "link a with a");
    assert!(matches!(e, CSError::SameStruct(_, ref s) if s == "a"));
    let (_, e) = err(&mut t, "link a with ?");
    assert!(matches!(e, CSError::InvalidArguments(ref s) if s == "? cannot be used to fuse with another cube"));
    let (_, e) = err(&mut t, "link a to b");
    assert!(matches!(e, CSError::InvalidArguments(ref s) if s == "<fuse|link (cube_name) with (cube_1) (cube_2)?>"));
    let (_, e) = err(&mut t, "link a with z");
    assert!(matches!(e, CSError::NonExistentName(_, ref s) if s == "z"));
}

#[test]
fn linking_a_known_key_to_the_unknown_cube_is_refused() {
    let mut t = TUI::default();
    ok(&mut t, "add a -1 b 2");
    ok(&mut t, "link b with a");
    assert_eq!(
        ok(&mut t, "link ? with a"),
        "Cube FuseKey \"(a?)\" cannot be added for ? as it already exists as known.\nSuccessfully linked cube \"?\" with \"a\"\n"
    );
    assert_eq!(
        ok(&mut t, "todo"),
        "a cube has tier -1\nb contains a single fuse key (a?)\nPrinting fusion keys to unknown '?' Cubes\n\n\n"
    );
}

#[test]
fn merge_makes_a_pair_of_two_singles() {
    let mut t = TUI::default();
    ok(&mut t, "add a 1 b 2 c 3");
    ok(&mut t, "link a with b");
    ok(&mut t, "link a with c");
    assert_eq!(ok(&mut t, "merge b c in a"), "Successfully merged keys \"b\" with \"c\" for \"a\"\n");
    assert!(ok(&mut t, "read a").contains("fused_by:[[b|c]]"));
    let (_, e) = err(&mut t, "merge b c in a");
    assert!(matches!(e, CSError::NonExistentName(f, ref s) if f == "CubeDLL::merge_keys_at_p" && s == "b and c"));
    let (_, e) = err(&mut t, "merge ? c in a");
    assert!(matches!(e, CSError::InvalidArguments(ref s) if s == "? cannot be used to merge"));
}

#[test]
fn get_fusions_numbers_the_keys_naming_the_cube() {
    let mut t = TUI::default();
    ok(&mut t, "add a 1 b 2 c 3");
    ok(&mut t, "link a with b");
    ok(&mut t, "link c with b a");
    assert_eq!(ok(&mut t, "get_fusions b"), "1: a made with (b?)\n2: c made with (a|b)\n");
}

#[test]
fn build_tree_lists_by_depth() {
    let mut t = TUI::default();
    ok(&mut t, "add x 3 y 2 z 1 w 0");
    ok(&mut t, "link x with y z");
    ok(&mut t, "link y with w");
    ok(&mut t, "link z with w");
    assert_eq!(
        ok(&mut t, "build_tree x"),
        "Cube Combinations to get x\n[0] => x => (y|z)\n[1] => y => (w?)\n[1] => z => (w?)\n[2] => w\n"
    );
    let args: Vec<String> = vec!["build_tree_gui".to_string(), "x".to_string()];
    let mut out = String::new();
    let r = t.build_tree_cmd(&args, "<build_tree_gui (cube_name)>", &mut out);
    assert!(matches!(r, Ok(true)));
    assert_eq!(out, "x\nx/y\nx/z\nx/y/w\nx/z/w\n");
}

#[test]
fn remove_drops_the_keys_of_the_unknown_cube() {
    let mut t = TUI::default();
    ok(&mut t, "add a 1 b 2");
    ok(&mut t, "link ? with a b");
    ok(&mut t, "link ? with b");
    ok(&mut t, "remove a");
    let out = ok(&mut t, "read ?");
    assert!(out.contains("fused_by:[b?]"));
    assert!(!out.contains("a|b"));
}

#[test]
fn find_ignores_case() {
    let mut t = TUI::default();
    ok(&mut t, "add Apple 1 apricot 2 banana 3");
    assert_eq!(
        ok(&mut t, "find starts_with AP"),
        "Finding cube names starting with 'AP'\n1: Apple\n2: apricot\n"
    );
    assert_eq!(
        ok(&mut t, "search contains AN"),
        "Finding cube names containing substring 'AN'\n1: banana\n"
    );
    assert_eq!(
        ok(&mut t, "find contains zz"),
        "Finding cube names containing substring 'zz'\n(None found)\n"
    );
    let (out, e) = err(&mut t, "find middle a");
    assert_eq!(out, "");
    assert!(matches!(e, CSError::InvalidArguments(ref s) if s == "<find|search starts_with|contains (partial cube_name)>"));
}

#[test]
fn remove_drops_the_keys_that_name_the_cube() {
    let mut t = TUI::default();
    ok(&mut t, "add a 1 b 2");
    ok(&mut t, "link a with b");
    assert_eq!(
        ok(&mut t, "remove b"),
        "Removing fuse key {\"b\"} for \"a\"\nCube \"b\" and all of its links have been destroyed.\n"
    );
    assert!(!t.cube_exists(&"b".to_string()));
    assert!(ok(&mut t, "read a").contains("fused_by:[]"));
    let (_, e) = err(&mut t, "destroy ?");
    assert!(matches!(e, CSError::InvalidArguments(ref s) if s == "? cannot be destroyed. Use unlink command to remove ? links instead."));
}

#[test]
fn rename_rewrites_keys() {
    let mut t = TUI::default();
    ok(&mut t, "add a 1 b 2");
    ok(&mut t, "link a with b");
    assert_eq!(
        ok(&mut t, "rename b to c"),
        "Changing key names of \"b\" to \"c\" for cube \"a\"\nCube \"b\" successfully renamed to \"c\"\n"
    );
    assert!(t.cube_exists(&"c".to_string()));
    assert!(!t.cube_exists(&"b".to_string()));
    assert!(ok(&mut t, "read a").contains("fused_by:[c?]"));
    let (_, e) = err(&mut t, "rename c to a");
    assert!(matches!(e, CSError::DuplicateName(_, ref s) if s == "a"));
    let (_, e) = err(&mut t, "rename c to ?");
    assert!(matches!(e, CSError::InvalidArguments(ref s) if s == "? cannot be renamed or be used as a name"));
}

#[test]
fn unknown_command_is_an_error() {
    let mut t = TUI::default();
    let (out, e) = err(&mut t, "frobnicate a");
    assert_eq!(out, "");
    assert!(matches!(e, CSError::InvalidCommand(ref s) if s == "frobnicate"));
    assert_eq!(e.describe(), "'frobnicate' is not a valid command name. Type 'usage' for valid commands.");
    assert_eq!(e.kind_text(), "{ CSError type: InvalidCommand }");
}

#[test]
fn error_texts() {
    let e = CSError::NonExistentName("CubeDLL::point_to", "z".to_string());
    assert_eq!(e.describe(), "Cube name(s) z not found");
    assert_eq!(e.kind_text(), "{ CSError type: NonExistentName, function: CubeDLL::point_to }");
    let e = CSError::OtherError(IntParse::PosOverflow);
    assert_eq!(e.describe(), "number too large to fit in target type");
    assert_eq!(e.kind_text(), "Rust Error: ParseIntError { kind: PosOverflow }");
    let e = CSError::NameSyntax("a b".to_string());
    assert_eq!(e.describe(), "Cube name a b can only contain the valid characters [0-9a-zA-Z()]+ or contain only ?.");
}

#[test]
fn rename_moves_the_map_and_pair_keys() {
    let mut t = TUI::default();
    ok(&mut t, "add a 1 b 2 c 3");
    ok(&mut t, "link c with a b");
    ok(&mut t, "rename a to z");
    assert!(t.cube_exists(&"z".to_string()));
    assert!(!t.cube_exists(&"a".to_string()));
    assert_eq!(
        ok(&mut t, "read_all"),
        "Syntax: fused_by: [fuse key array (single/pair)] => [[this cube name]](tier) => converts_to: [cube name array]\n\
         fused_by: [] => [[\"b\"]](2) => converts_to: [\"c\"]\n\
         fused_by: [\"b\"|\"z\"] => [[\"c\"]](3) => converts_to: []\n\
         fused_by: [] => [[\"z\"]](1) => converts_to: [\"c\"]\n"
    );
}

#[test]
fn remove_cuts_the_links_of_the_cube() {
    let mut t = TUI::default();
    ok(&mut t, "add a 1 b 2 c 3");
    ok(&mut t, "link a with b c");
    ok(&mut t, "link c with b");
    ok(&mut t, "remove b");
    assert!(!t.cube_exists(&"b".to_string()));
    assert_eq!(
        ok(&mut t, "read_all"),
        "Syntax: fused_by: [fuse key array (single/pair)] => [[this cube name]](tier) => converts_to: [cube name array]\n\
         fused_by: [] => [[\"a\"]](1) => converts_to: []\n\
         fused_by: [] => [[\"c\"]](3) => converts_to: []\n"
    );
}

#[test]
fn rename_follows_a_cube_named_in_two_keys() {
    let mut t = TUI::default();
    ok(&mut t, "add a 2 b 0 c 4");
    ok(&mut t, "link a with b c");
    ok(&mut t, "link a with c");
    ok(&mut t, "rename a to z");
    assert!(t.cube_exists(&"z".to_string()));
    assert!(!t.cube_exists(&"a".to_string()));
    let out = ok(&mut t, "read_all");
    assert!(out.contains("fused_by: [] => [[\"b\"]](0) => converts_to: [\"z\"]\n"));
    assert!(out.contains("fused_by: [] => [[\"c\"]](4) => converts_to: [\"z\"]\n"));
    assert!(out.contains("[[\"z\"]](2)"));
    assert!(ok(&mut t, "read z").contains("fused_by:[[b|c],c?]"));
}

#[test]
fn rename_rewrites_the_keys_of_the_unknown_cube() {
    let mut t = TUI::default();
    ok(&mut t, "add a 1 b 2");
    ok(&mut t, "link ? with a");
    ok(&mut t, "rename a to z");
    assert!(ok(&mut t, "read ?").contains("fused_by:[z?]"));
}

#[test]
fn a_pointer_at_a_renamed_cube_follows_it() {
    let mut t = TUI::default();
    assert!(run(&mut t, "add a 1 b 2").1.is_ok());
    assert!(run(&mut t, "link a with b").1.is_ok());
    assert!(run(&mut t, "rename a to z").1.is_ok());
    let (out, r) = run(&mut t, "read z");
    assert!(r.is_ok());
    assert!(out.contains("name:[\"z\"]"));
    assert!(out.contains("fused_by:[b?]"));
    assert!(!t.cube_exists(&"a".to_string()));
}
