use cube_combination_reader::error::CSError;
use cube_combination_reader::tui::TUI;

/// Runs each line as a command, stopping at the first error.
fn test_multiple_commands(tui: &mut TUI, lines: &[&str]) -> Result<(), CSError> {
    for line in lines {
        let args: Vec<String> = line.split_whitespace().map(|s| s.to_string()).collect();
        println!("Reading command {:?}", args);
        if args.is_empty() {
            continue;
        }
        let mut out = String::new();
        let r = tui.run_command(&args, &mut out);
        println!("{}", out);
        r?;
    }
    Ok(())
}

#[test]
fn link_test() {
    let mut tui_obj: TUI = Default::default();
    let text = "add a 2 b 0 c 4 d 8\nread_all\n\
        link a with b c\nread_all\n\
        fuse a with d c\nread_all\n\
        link a with c\nread_all\n\
        unlink b c in a\nread_all\n\
        unlink d c in a\nread_all\n\
        unlink c in a\nread_all\nexit";
    let lines: Vec<&str> = text.split('\n').collect();
    if let Err(e) = test_multiple_commands(&mut tui_obj, &lines) {
        panic!("{}: {}", e.kind_text(), e.describe());
    }
    assert!(tui_obj.is_program_done());
}
