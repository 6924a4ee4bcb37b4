//! The command interpreter: the table of commands, what each command does
//! to the graph and writes, and what it leaves to be done outside (an answer
//! to a question, a file to write or read).
use vstd::prelude::*;
use crate::assoc::{find_key, has_key, value_of, lemma_find_key, lemma_find_key_at, named_view, named_get};
use crate::build_tree::{spec_build_tree, strings_view};
use crate::cube::{
    CubeDLL, DllView, CubeStruct, empty_dll, no_text, unknown_name, fresh_cube, put, spec_add, spec_point_to,
    spec_destroy, spec_unlink_all, spec_rename, spec_link_single, spec_link_pair, spec_merge, spec_unlink_keys,
    spec_change_tier,
};
use crate::error::{CSError, CSResult, ErrView, outcome};
use crate::load::{tokens, tokens_of, spec_load};
use crate::names::{valid_cube_name, check_valid_cube_name};
use crate::show::{info_ok, info_text, paths_text, spec_fusions, todo_text, sorted_by_name, save_file, sort_by_name, isort};
use crate::text::{
    str_eq, string_of, string_from_chars, chars_of, lowercase, to_lowercase, has_substring, text_contains,
    text_starts_with, parse_i32, i32_parse, usize_text, nat_decimal,
};

verus! {

/// What a command runs.
#[derive(PartialEq, Eq, Structural, Clone, Copy)]
pub enum Command {
    Add,
    Remove,
    Rename,
    Read,
    ReadAll,
    Link,
    Merge,
    Unlink,
    UnlinkAll,
    Exit,
    SaveTo,
    LoadFrom,
    RemoveAll,
    ChangeTier,
    GetFusions,
    BuildTree,
    Find,
    Todo,
    Usage,
}

/// An entry of the command table: what the command runs, how it is used,
/// and what it does.
pub struct CommandEntry {
    pub command: Command,
    pub usage: String,
    pub description: String,
}

/// The value of an entry of the command table.
pub struct EntryView {
    pub command: Command,
    pub usage: Seq<char>,
    pub description: Seq<char>,
}

impl View for CommandEntry {
    type V = EntryView;

    open spec fn view(&self) -> EntryView {
        EntryView { command: self.command, usage: self.usage@, description: self.description@ }
    }
}

/// The value of a command table: names bound to entries.
pub open spec fn table_view(v: Seq<(String, CommandEntry)>) -> Seq<(Seq<char>, EntryView)> {
    v.map_values(|e: (String, CommandEntry)| (e.0@, e.1@))
}

/// What is left to do once a command has run.
pub enum Pending {
    /// Nothing.
    Nothing,
    /// Ask the question; on yes, `remove_all_confirmed`.
    RemoveAll(String),
    /// Ask the question (second field); on yes, write `save_text` to the
    /// file (first field), then `mark_saved`.
    SaveTo(String, String),
    /// Open the file; ask the question when there is one; on yes (or with
    /// no question) read the file and hand its text to `load_from_text`.
    LoadFrom(String, Option<String>),
    /// Ask the question; on yes, `exit_confirmed`.
    Exit(String),
    /// The command met a cube that names a cube no longer in the map: the
    /// program stops here.
    Halt,
}

/// The value of what is left to do.
pub enum PendingView {
    Nothing,
    RemoveAll(Seq<char>),
    SaveTo(Seq<char>, Seq<char>),
    LoadFrom(Seq<char>, Option<Seq<char>>),
    Exit(Seq<char>),
    Halt,
}

impl View for Pending {
    type V = PendingView;

    open spec fn view(&self) -> PendingView {
        match self {
            Pending::Nothing => PendingView::Nothing,
            Pending::RemoveAll(q) => PendingView::RemoveAll(q@),
            Pending::SaveTo(f, q) => PendingView::SaveTo(f@, q@),
            Pending::LoadFrom(f, q) => PendingView::LoadFrom(
                f@,
                match q {
                    Some(s) => Some(s@),
                    None => None,
                },
            ),
            Pending::Exit(q) => PendingView::Exit(q@),
            Pending::Halt => PendingView::Halt,
        }
    }
}

/// The value of the outcome of a command.
pub open spec fn run_view(r: CSResult<Pending>) -> Result<PendingView, ErrView> {
    match r {
        Ok(p) => Ok(p@),
        Err(e) => Err(e@),
    }
}

/// The interpreter: the graph, whether the program is done, the command
/// table, and whether everything has been saved.
pub struct TUI {
    pub cdll: CubeDLL,
    pub done_program: bool,
    pub hm_command: Vec<(String, CommandEntry)>,
    pub has_saved: bool,
}

/// The value of the interpreter.
pub struct TuiView {
    pub cdll: DllView,
    pub done: bool,
    pub commands: Seq<(Seq<char>, EntryView)>,
    pub saved: bool,
}

impl View for TUI {
    type V = TuiView;

    open spec fn view(&self) -> TuiView {
        TuiView {
            cdll: self.cdll@,
            done: self.done_program,
            commands: table_view(self.hm_command@),
            saved: self.has_saved,
        }
    }
}

impl TuiView {
    /// The graph is well formed.
    pub open spec fn wf(self) -> bool {
        self.cdll.wf()
    }
}

pub open spec fn entry(command: Command, usage: Seq<char>, description: Seq<char>) -> EntryView {
    EntryView { command, usage, description }
}

pub open spec fn remove_usage() -> Seq<char> {
    "<destroy|drop|remove (cube_name)+>"@
}

pub open spec fn remove_text() -> Seq<char> {
    "Destroys a cube and all its links with other cubes"@
}

pub open spec fn link_usage() -> Seq<char> {
    "<fuse|link (cube_name) with (cube_1) (cube_2)?>"@
}

pub open spec fn link_text() -> Seq<char> {
    "Links 1 or 2 cubes together for a cube_name"@
}

pub open spec fn unlink_usage() -> Seq<char> {
    "<unfuse|unlink (cube_1) (cube_2)? in (cube_name)>"@
}

pub open spec fn unlink_text() -> Seq<char> {
    "Unlinks cube fusions for the specified cube_name"@
}

pub open spec fn unlink_all_usage() -> Seq<char> {
    "<unfuse_all|unlink_all (cube_name)+>"@
}

pub open spec fn unlink_all_text() -> Seq<char> {
    "Unlinks all fusions and associations of conversions for a cube"@
}

pub open spec fn save_usage() -> Seq<char> {
    "<save_to (file_name)>"@
}

pub open spec fn save_text_doc() -> Seq<char> {
    "Saves data to a text file"@
}

pub open spec fn remove_all_usage() -> Seq<char> {
    "<destroy_all|drop_all|remove_all>"@
}

pub open spec fn remove_all_text() -> Seq<char> {
    "Clears all cube data in the program"@
}

pub open spec fn find_usage() -> Seq<char> {
    "<find|search starts_with|contains (partial cube_name)>"@
}

pub open spec fn find_text() -> Seq<char> {
    "Finds all associated cube names within the program (case-insensitive)"@
}

/// The command table that the interpreter starts with.
pub open spec fn command_table() -> Seq<(Seq<char>, EntryView)> {
    seq![
        ("add"@, entry(Command::Add, "<add ((cube_name) (Tier))+>"@, "Adds cube with name and tier"@)),
        ("remove"@, entry(Command::Remove, remove_usage(), remove_text())),
        ("drop"@, entry(Command::Remove, remove_usage(), remove_text())),
        ("destroy"@, entry(Command::Remove, remove_usage(), remove_text())),
        ("rename"@, entry(Command::Rename, "<rename (cube) to (new_name)>"@, "Renames a cube and all its links with will be changed to that name"@)),
        ("read"@, entry(Command::Read, "<read (cube_name)+>"@, "Reads a cube's properties and also reads cubes with associated fusions"@)),
        ("read_all"@, entry(Command::ReadAll, "<read_all>"@, "Reads all cubes' properties in the program"@)),
        ("link"@, entry(Command::Link, link_usage(), link_text())),
        ("fuse"@, entry(Command::Link, link_usage(), link_text())),
        ("merge"@, entry(Command::Merge, "<merge (cube_a) (cube_b) in (cube_name)>"@, "Merge links of single cubes using link commands"@)),
        ("unlink"@, entry(Command::Unlink, unlink_usage(), unlink_text())),
        ("unfuse"@, entry(Command::Unlink, unlink_usage(), unlink_text())),
        ("unlink_all"@, entry(Command::UnlinkAll, unlink_all_usage(), unlink_all_text())),
        ("unfuse_all"@, entry(Command::UnlinkAll, unlink_all_usage(), unlink_all_text())),
        ("exit"@, entry(Command::Exit, "<exit>"@, "Exits the program. Will ask to save unsaved data if any."@)),
        ("save_to"@, entry(Command::SaveTo, save_usage(), save_text_doc())),
        ("write_to"@, entry(Command::SaveTo, save_usage(), save_text_doc())),
        ("load_from"@, entry(Command::LoadFrom, "<load_from (file_name)>"@, "Loads data from a text file"@)),
        ("remove_all"@, entry(Command::RemoveAll, remove_all_usage(), remove_all_text())),
        ("drop_all"@, entry(Command::RemoveAll, remove_all_usage(), remove_all_text())),
        ("destroy_all"@, entry(Command::RemoveAll, remove_all_usage(), remove_all_text())),
        ("change_tier"@, entry(Command::ChangeTier, "<change_tier (cube_name) (this_tier)>"@, "Changes a tier for a specified cube"@)),
        ("get_fusions"@, entry(Command::GetFusions, "<get_fusions (cube_name)>"@, "Gets all cube fusions for the specified cube. Similar to read, but prints/enumerates cube fusions instead."@)),
        ("build_tree"@, entry(Command::BuildTree, "<build_tree (cube_name)>"@, "Gets all associated cube fusions to make this cube."@)),
        ("find"@, entry(Command::Find, find_usage(), find_text())),
        ("search"@, entry(Command::Find, find_usage(), find_text())),
        ("todo"@, entry(Command::Todo, "<todo>"@, "Finds tiers that have not been set yet (-1), finds single fusions not set yet to double, and finds ? fusions."@)),
        ("usage"@, entry(Command::Usage, "<usage>"@, "Sees all commands used within the program"@))
    ]
}

/// The interpreter at the start: no cubes, not done, the full command
/// table, nothing unsaved.
pub open spec fn initial_tui() -> TuiView {
    TuiView { cdll: empty_dll(), done: false, commands: command_table(), saved: true }
}

/// The commands after which nothing is left unsaved that was saved before:
/// those that only read, and those that settle saving themselves.
pub open spec fn keeps_saved(arg: Seq<char>) -> bool {
    ||| arg == "destroy_all"@
    ||| arg == "drop_all"@
    ||| arg == "remove_all"@
    ||| arg == "save_to"@
    ||| arg == "write_to"@
    ||| arg == "load_from"@
    ||| arg == "read"@
    ||| arg == "read_all"@
    ||| arg == "get_fusions"@
    ||| arg == "build_tree"@
    ||| arg == "find"@
    ||| arg == "search"@
    ||| arg == "usage"@
    ||| arg == "todo"@
    ||| arg == "exit"@
}

/// `set_save_flag`: after any other command, something may be unsaved.
pub open spec fn spec_save_flag(v: TuiView, arg: Seq<char>) -> TuiView {
    if keeps_saved(arg) {
        v
    } else {
        TuiView { saved: false, ..v }
    }
}

/// The names of the map that pass the filter: all of them, or those whose
/// lower case holds the lower case of the filter.
pub open spec fn filtered(hm: Seq<(Seq<char>, usize)>, f: Option<Seq<char>>, i: nat) -> Seq<(Seq<char>, usize)>
    decreases i,
{
    if i == 0 || i > hm.len() {
        Seq::empty()
    } else {
        let rest = filtered(hm, f, (i - 1) as nat);
        let e = hm[i - 1];
        match f {
            None => rest.push(e),
            Some(s) => if has_substring(lowercase(e.0), lowercase(s)) {
                rest.push(e)
            } else {
                rest
            },
        }
    }
}

/// The filter of an optional string.
pub open spec fn filter_view(f: Option<String>) -> Option<Seq<char>> {
    match f {
        Some(s) => Some(s@),
        None => None,
    }
}

/// The names of entries, in order.
pub open spec fn names_of(es: Seq<(Seq<char>, usize)>) -> Seq<Seq<char>> {
    es.map_values(|e: (Seq<char>, usize)| e.0)
}

/// A failure on the shape of a command's arguments: the usage is shown.
pub open spec fn bad_args(usage: Seq<char>) -> ErrView {
    ErrView::InvalidArguments(usage)
}

/// The outcome of a step as a flag: `Ok(true)` to go on.
pub open spec fn go_on(r: Result<(), ErrView>) -> Result<bool, ErrView> {
    match r {
        Ok(_) => Ok(true),
        Err(e) => Err(e),
    }
}

/// Adding one cube `name` of tier `tier` (`add`).
#[verifier::opaque]
pub open spec fn add_step(v: DllView, name: Seq<char>, tier: Seq<char>) -> (DllView, Seq<char>, Result<bool, ErrView>) {
    if !valid_cube_name(name) {
        (v, no_text(), Err(ErrView::NameSyntax(name)))
    } else if name == unknown_name() {
        (v, no_text(), Err(ErrView::InvalidArguments("? cannot be added other than using it for linking"@)))
    } else {
        match i32_parse(tier) {
            Err(e) => (v, no_text(), Err(ErrView::OtherError(e))),
            Ok(t) => {
                let (w, r) = spec_add(v, fresh_cube(name, t));
                match r {
                    Err(e) => (w, no_text(), Err(e)),
                    Ok(_) => (w, "Cube \""@ + name + "\" added\n"@, Ok(true)),
                }
            },
        }
    }
}

/// The first `k` name and tier pairs of `a` (after the command name) added
/// in turn; the first error stops.
pub open spec fn add_fold(v: DllView, a: Seq<Seq<char>>, k: nat) -> (DllView, Seq<char>, Result<bool, ErrView>)
    decreases k,
{
    if k == 0 {
        (v, no_text(), Ok(true))
    } else {
        let (w, t, r) = add_fold(v, a, (k - 1) as nat);
        if r != Ok::<bool, ErrView>(true) {
            (w, t, r)
        } else {
            let (w2, t2, r2) = add_step(w, a[2 * k - 1], a[(2 * k) as int]);
            (w2, t + t2, r2)
        }
    }
}

/// `add ((cube_name) (Tier))+`.
pub open spec fn cmd_add(v: DllView, a: Seq<Seq<char>>, usage: Seq<char>) -> (DllView, Seq<char>, Result<bool, ErrView>) {
    if a.len() % 2 == 0 || a.len() == 1 {
        (v, no_text(), Err(bad_args(usage)))
    } else {
        add_fold(v, a, ((a.len() - 1) / 2) as nat)
    }
}

/// The commands that take one or more cube names and treat each in turn.
#[derive(PartialEq, Eq, Structural, Clone, Copy)]
pub enum EachCmd {
    Remove,
    Read,
    UnlinkAll,
}

/// Treating one cube `name`: destroying it, reading it, or unlinking its
/// keys. Reading gives `Ok(false)` when the cube converts to a cube no
/// longer in the map (after writing what comes before it).
#[verifier::opaque]
pub open spec fn each_step(kind: EachCmd, v: DllView, name: Seq<char>) -> (DllView, Seq<char>, Result<bool, ErrView>) {
    if kind == EachCmd::Remove && name == unknown_name() {
        (
            v,
            no_text(),
            Err(ErrView::InvalidArguments("? cannot be destroyed. Use unlink command to remove ? links instead."@)),
        )
    } else if !valid_cube_name(name) {
        (v, no_text(), Err(ErrView::NameSyntax(name)))
    } else {
        let (w1, r1) = spec_point_to(v, name);
        match r1 {
            Err(e) => (w1, no_text(), Err(e)),
            Ok(_) => match kind {
                EachCmd::Remove => {
                    let (w2, t2, r2) = spec_destroy(w1);
                    match r2 {
                        Err(e) => (w2, t2, Err(e)),
                        Ok(_) => (w2, t2 + "Cube \""@ + name + "\" and all of its links have been destroyed.\n"@, Ok(true)),
                    }
                },
                EachCmd::Read => {
                    let p = w1.pointer->0 as int;
                    (w1, info_text(w1, p), Ok(info_ok(w1, p)))
                },
                EachCmd::UnlinkAll => {
                    let (w2, r2) = spec_unlink_all(w1);
                    match r2 {
                        Err(e) => (w2, no_text(), Err(e)),
                        Ok(_) => (w2, "Successfully unlinked cube \""@ + name + "\"'s fused_by properties.\n"@, Ok(true)),
                    }
                },
            },
        }
    }
}

/// The first `k` names of `ns` treated in turn; an error or a halt stops.
pub open spec fn each_fold(kind: EachCmd, v: DllView, ns: Seq<Seq<char>>, k: nat) -> (DllView, Seq<char>, Result<bool, ErrView>)
    decreases k,
{
    if k == 0 {
        (v, no_text(), Ok(true))
    } else {
        let (w, t, r) = each_fold(kind, v, ns, (k - 1) as nat);
        if r != Ok::<bool, ErrView>(true) {
            (w, t, r)
        } else {
            let (w2, t2, r2) = each_step(kind, w, ns[k - 1]);
            (w2, t + t2, r2)
        }
    }
}

/// `destroy|drop|remove (cube_name)+`, `read (cube_name)+` and
/// `unfuse_all|unlink_all (cube_name)+`.
pub open spec fn cmd_each(kind: EachCmd, v: DllView, a: Seq<Seq<char>>, usage: Seq<char>) -> (DllView, Seq<char>, Result<bool, ErrView>) {
    if a.len() == 1 {
        (v, no_text(), Err(bad_args(usage)))
    } else {
        each_fold(kind, v, a.drop_first(), (a.len() - 1) as nat)
    }
}

/// `rename (cube) to (new_name)`.
pub open spec fn cmd_rename(v: DllView, a: Seq<Seq<char>>, usage: Seq<char>) -> (DllView, Seq<char>, Result<bool, ErrView>) {
    if a.len() != 4 || a[2] != "to"@ {
        (v, no_text(), Err(bad_args(usage)))
    } else if a[1] == unknown_name() || a[3] == unknown_name() {
        (v, no_text(), Err(ErrView::InvalidArguments("? cannot be renamed or be used as a name"@)))
    } else if !valid_cube_name(a[1]) {
        (v, no_text(), Err(ErrView::NameSyntax(a[1])))
    } else if !valid_cube_name(a[3]) {
        (v, no_text(), Err(ErrView::NameSyntax(a[3])))
    } else {
        let (w1, r1) = spec_point_to(v, a[1]);
        match r1 {
            Err(e) => (w1, no_text(), Err(e)),
            Ok(_) => {
                let (w2, t2, r2) = spec_rename(w1, a[3]);
                match r2 {
                    Err(e) => (w2, t2, Err(e)),
                    Ok(_) => (w2, t2 + "Cube \""@ + a[1] + "\" successfully renamed to \""@ + a[3] + "\"\n"@, Ok(true)),
                }
            },
        }
    }
}

pub open spec fn msg_no_unknown_fuse() -> Seq<char> {
    "? cannot be used to fuse with another cube"@
}

/// `fuse|link (cube_name) with (cube_1) (cube_2)?`.
pub open spec fn cmd_link(v: DllView, a: Seq<Seq<char>>, usage: Seq<char>) -> (DllView, Seq<char>, Result<bool, ErrView>) {
    let n = a.len();
    if (n != 4 && n != 5) || a[2] != "with"@ {
        (v, no_text(), Err(bad_args(usage)))
    } else if !valid_cube_name(a[1]) {
        (v, no_text(), Err(ErrView::NameSyntax(a[1])))
    } else {
        let (w1, r1) = spec_point_to(v, a[1]);
        if r1 is Err {
            (w1, no_text(), Err(r1->Err_0))
        } else if !valid_cube_name(a[3]) {
            (w1, no_text(), Err(ErrView::NameSyntax(a[3])))
        } else if a[3] == unknown_name() {
            (w1, no_text(), Err(ErrView::InvalidArguments(msg_no_unknown_fuse())))
        } else if n == 4 {
            let (w2, t2, r2) = spec_link_single(w1, a[3]);
            match r2 {
                Err(e) => (w2, t2, Err(e)),
                Ok(_) => (w2, t2 + "Successfully linked cube \""@ + a[1] + "\" with \""@ + a[3] + "\"\n"@, Ok(true)),
            }
        } else if !valid_cube_name(a[4]) {
            (w1, no_text(), Err(ErrView::NameSyntax(a[4])))
        } else if a[4] == unknown_name() {
            (w1, no_text(), Err(ErrView::InvalidArguments(msg_no_unknown_fuse())))
        } else {
            let (w2, t2, r2) = spec_link_pair(w1, a[3], a[4]);
            match r2 {
                Err(e) => (w2, t2, Err(e)),
                Ok(_) => (
                    w2,
                    t2 + "Successfully linked cube \""@ + a[1] + "\" with \""@ + a[3] + "\" and \""@ + a[4] + "\"\n"@,
                    Ok(true),
                ),
            }
        }
    }
}

pub open spec fn msg_no_unknown_merge() -> Seq<char> {
    "? cannot be used to merge"@
}

/// `merge (cube_a) (cube_b) in (cube_name)`.
pub open spec fn cmd_merge(v: DllView, a: Seq<Seq<char>>, usage: Seq<char>) -> (DllView, Seq<char>, Result<bool, ErrView>) {
    if a.len() != 5 || a[3] != "in"@ {
        (v, no_text(), Err(bad_args(usage)))
    } else if !valid_cube_name(a[1]) {
        (v, no_text(), Err(ErrView::NameSyntax(a[1])))
    } else if a[1] == unknown_name() {
        (v, no_text(), Err(ErrView::InvalidArguments(msg_no_unknown_merge())))
    } else if !valid_cube_name(a[2]) {
        (v, no_text(), Err(ErrView::NameSyntax(a[2])))
    } else if a[2] == unknown_name() {
        (v, no_text(), Err(ErrView::InvalidArguments(msg_no_unknown_merge())))
    } else if !valid_cube_name(a[4]) {
        (v, no_text(), Err(ErrView::NameSyntax(a[4])))
    } else {
        let (w1, r1) = spec_point_to(v, a[4]);
        match r1 {
            Err(e) => (w1, no_text(), Err(e)),
            Ok(_) => {
                let (w2, t2, r2) = spec_merge(w1, a[1], a[2]);
                match r2 {
                    Err(e) => (w2, t2, Err(e)),
                    Ok(_) => (
                        w2,
                        t2 + "Successfully merged keys \""@ + a[1] + "\" with \""@ + a[2] + "\" for \""@ + a[4] + "\"\n"@,
                        Ok(true),
                    ),
                }
            },
        }
    }
}

pub open spec fn msg_no_unknown_unlink() -> Seq<char> {
    "? cannot be unlinked with another cube"@
}

/// `unfuse|unlink (cube_1) (cube_2)? in (cube_name)`.
pub open spec fn cmd_unlink(v: DllView, a: Seq<Seq<char>>, usage: Seq<char>) -> (DllView, Seq<char>, Result<bool, ErrView>) {
    let n = a.len();
    if (n != 4 && n != 5) || a[n - 2] != "in"@ {
        (v, no_text(), Err(bad_args(usage)))
    } else if !valid_cube_name(a[n - 1]) {
        (v, no_text(), Err(ErrView::NameSyntax(a[n - 1])))
    } else {
        let (w1, r1) = spec_point_to(v, a[n - 1]);
        if r1 is Err {
            (w1, no_text(), Err(r1->Err_0))
        } else if !valid_cube_name(a[1]) {
            (w1, no_text(), Err(ErrView::NameSyntax(a[1])))
        } else if a[1] == unknown_name() {
            (w1, no_text(), Err(ErrView::InvalidArguments(msg_no_unknown_unlink())))
        } else if n == 5 && !valid_cube_name(a[2]) {
            (w1, no_text(), Err(ErrView::NameSyntax(a[2])))
        } else if n == 5 && a[2] == unknown_name() {
            (w1, no_text(), Err(ErrView::InvalidArguments(msg_no_unknown_unlink())))
        } else {
            let (w2, t2, r2) = spec_unlink_keys(
                w1,
                a[1],
                if n == 5 {
                    Some(a[2])
                } else {
                    None
                },
            );
            match r2 {
                Err(e) => (w2, t2, Err(e)),
                Ok(_) => (w2, t2 + "Successfully removed for cube \""@ + a[n - 1] + "\"\n"@, Ok(true)),
            }
        }
    }
}

/// `change_tier (cube_name) (this_tier)`.
pub open spec fn cmd_change_tier(v: DllView, a: Seq<Seq<char>>, usage: Seq<char>) -> (DllView, Seq<char>, Result<bool, ErrView>) {
    if a.len() != 3 {
        (v, no_text(), Err(bad_args(usage)))
    } else if !valid_cube_name(a[1]) {
        (v, no_text(), Err(ErrView::NameSyntax(a[1])))
    } else {
        let (w1, r1) = spec_point_to(v, a[1]);
        if r1 is Err {
            (w1, no_text(), Err(r1->Err_0))
        } else if a[1] == unknown_name() {
            (w1, no_text(), Err(ErrView::InvalidArguments("? does not have a tier"@)))
        } else {
            match i32_parse(a[2]) {
                Err(e) => (w1, no_text(), Err(ErrView::OtherError(e))),
                Ok(t) => {
                    let (w2, t2, r2) = spec_change_tier(w1, t);
                    (w2, t2, go_on(r2))
                },
            }
        }
    }
}

/// `get_fusions (cube_name)`.
pub open spec fn cmd_get_fusions(v: DllView, a: Seq<Seq<char>>, usage: Seq<char>) -> (DllView, Seq<char>, Result<bool, ErrView>) {
    if a.len() != 2 {
        (v, no_text(), Err(bad_args(usage)))
    } else if !valid_cube_name(a[1]) {
        (v, no_text(), Err(ErrView::NameSyntax(a[1])))
    } else {
        let (w1, r1) = spec_point_to(v, a[1]);
        match r1 {
            Err(e) => (w1, no_text(), Err(e)),
            Ok(_) => (w1, spec_fusions(w1).0, go_on(spec_fusions(w1).1)),
        }
    }
}

/// `build_tree (cube_name)` (the command's own name picks the listing).
pub open spec fn cmd_build_tree(v: DllView, a: Seq<Seq<char>>, usage: Seq<char>) -> (DllView, Seq<char>, Result<bool, ErrView>) {
    if a.len() != 2 {
        (v, no_text(), Err(bad_args(usage)))
    } else if !valid_cube_name(a[1]) {
        (v, no_text(), Err(ErrView::NameSyntax(a[1])))
    } else {
        let (w1, r1) = spec_point_to(v, a[1]);
        match r1 {
            Err(e) => (w1, no_text(), Err(e)),
            Ok(_) => (w1, spec_build_tree(w1, a[0]).0, spec_build_tree(w1, a[0]).1),
        }
    }
}

/// The names among the first `i` of the map whose lower case starts with
/// (`starts`) or holds the lower case of `pat`.
pub open spec fn found_names(hm: Seq<(Seq<char>, usize)>, pat: Seq<char>, starts: bool, i: nat) -> Seq<Seq<char>>
    decreases i,
{
    if i == 0 || i > hm.len() {
        Seq::empty()
    } else {
        let rest = found_names(hm, pat, starts, (i - 1) as nat);
        let n = lowercase(hm[i - 1].0);
        let p = lowercase(pat);
        let hit = if starts {
            p.len() <= n.len() && n.subrange(0, p.len() as int) == p
        } else {
            has_substring(n, p)
        };
        if hit {
            rest.push(hm[i - 1].0)
        } else {
            rest
        }
    }
}

/// The first `i` names numbered from 1, one a line, with no line break
/// after the last.
pub open spec fn numbered(ns: Seq<Seq<char>>, i: nat) -> Seq<char>
    decreases i,
{
    if i == 0 {
        Seq::empty()
    } else {
        numbered(ns, (i - 1) as nat) + (if i > 1 {
            "\n"@
        } else {
            no_text()
        }) + nat_decimal(i) + ": "@ + ns[i - 1]
    }
}

/// The numbered names, or `(None found)`.
pub open spec fn found_text(ns: Seq<Seq<char>>) -> Seq<char> {
    if ns.len() == 0 {
        "(None found)"@
    } else {
        numbered(ns, ns.len())
    }
}

/// `find|search starts_with|contains (partial cube_name)`.
pub open spec fn cmd_find(v: DllView, a: Seq<Seq<char>>, usage: Seq<char>) -> (DllView, Seq<char>, Result<bool, ErrView>) {
    if a.len() != 3 {
        (v, no_text(), Err(bad_args(usage)))
    } else if !valid_cube_name(a[2]) {
        (v, no_text(), Err(ErrView::NameSyntax(a[2])))
    } else if a[1] == "starts_with"@ {
        (
            v,
            "Finding cube names starting with '"@ + a[2] + "'\n"@ + found_text(found_names(v.hashmap, a[2], true, v.hashmap.len()))
                + "\n"@,
            Ok(true),
        )
    } else if a[1] == "contains"@ {
        (
            v,
            "Finding cube names containing substring '"@ + a[2] + "'\n"@ + found_text(found_names(v.hashmap, a[2], false, v.hashmap.len()))
                + "\n"@,
            Ok(true),
        )
    } else {
        (v, no_text(), Err(bad_args(usage)))
    }
}

/// A question asked before going on.
pub open spec fn ask(m: Seq<char>) -> Seq<char> {
    m + "\nContinue (y/n)? (n default)"@
}

/// `save_to|write_to (file_name)`: the file is written once the question
/// is answered yes; `temp.sav` is refused.
pub open spec fn cmd_save_to(v: TuiView, a: Seq<Seq<char>>, usage: Seq<char>) -> (TuiView, Seq<char>, Result<PendingView, ErrView>) {
    if a.len() != 2 {
        (v, no_text(), Err(bad_args(usage)))
    } else if a[1] == "temp.sav"@ {
        (
            v,
            no_text(),
            Err(ErrView::InvalidArguments("File name 'temp.sav' shouldn't be a file name because the file will be overwritten after this program exits."@)),
        )
    } else {
        (v, no_text(), Ok(PendingView::SaveTo(a[1], ask("Writing to this file name, \""@ + a[1] + "\", will be overwritten."@))))
    }
}

/// `load_from (file_name)`: the file is read, after a question when
/// something is unsaved.
pub open spec fn cmd_load_from(v: TuiView, a: Seq<Seq<char>>, usage: Seq<char>) -> (TuiView, Seq<char>, Result<PendingView, ErrView>) {
    if a.len() != 2 {
        (v, no_text(), Err(bad_args(usage)))
    } else {
        (
            v,
            no_text(),
            Ok(PendingView::LoadFrom(
                a[1],
                if v.saved {
                    None
                } else {
                    Some(ask("All unsaved cube data in this program will be erased before loading this file "@ + a[1] + "."@))
                },
            )),
        )
    }
}

/// `exit`: done at once when nothing is unsaved, else after a question.
pub open spec fn cmd_exit(v: TuiView) -> (TuiView, Seq<char>, Result<PendingView, ErrView>) {
    if v.saved {
        (TuiView { done: true, ..v }, no_text(), Ok(PendingView::Nothing))
    } else {
        (v, no_text(), Ok(PendingView::Exit(ask("There may be unsaved cube data not saved yet."@))))
    }
}

/// The usage of each entry whose usage no earlier entry among the first
/// `i` shares, with its description: `usage\n\tdescription`.
pub open spec fn usage_items(cs: Seq<(Seq<char>, EntryView)>, i: nat) -> Seq<(Seq<char>, usize)>
    decreases i,
{
    if i == 0 || i > cs.len() {
        Seq::empty()
    } else {
        let rest = usage_items(cs, (i - 1) as nat);
        let e = cs[i - 1].1;
        if exists|j: int| 0 <= j < i - 1 && #[trigger] cs[j].1.usage == e.usage {
            rest
        } else {
            rest.push((e.usage + "\n\t"@ + e.description, 0usize))
        }
    }
}

/// The texts of entries, one a line, with no line break after the last.
pub open spec fn lines_of(es: Seq<(Seq<char>, usize)>, i: nat) -> Seq<char>
    decreases i,
{
    if i == 0 {
        Seq::empty()
    } else {
        lines_of(es, (i - 1) as nat) + (if i > 1 {
            "\n"@
        } else {
            no_text()
        }) + es[i - 1].0
    }
}

pub open spec fn usage_header() -> Seq<char> {
    "Format: <command arg1 arg2 ...>\n+ means more than 1 set of arguments can also be added\n? means that an argument is optional\nCommand may have more than 1 name delimited with |\n"@
}

/// `usage`: how the commands are written, then each usage once (with its
/// description), sorted.
pub open spec fn usage_listing(cs: Seq<(Seq<char>, EntryView)>) -> Seq<char> {
    let items = isort(usage_items(cs, cs.len()));
    usage_header() + lines_of(items, items.len()) + "\n"@
}

/// A command run on the graph alone, seen from the interpreter: `Ok(false)`
/// halts.
pub open spec fn lift(v: TuiView, x: (DllView, Seq<char>, Result<bool, ErrView>)) -> (TuiView, Seq<char>, Result<PendingView, ErrView>) {
    (
        TuiView { cdll: x.0, ..v },
        x.1,
        pending_of(x.2),
    )
}

/// What is left after a command on the graph: nothing, or a halt.
pub open spec fn pending_of(x: Result<bool, ErrView>) -> Result<PendingView, ErrView> {
    match x {
        Ok(true) => Ok(PendingView::Nothing),
        Ok(false) => Ok(PendingView::Halt),
        Err(e) => Err(e),
    }
}

/// Running command `cmd` (with usage `usage`) on the arguments `a` (the
/// command's name first): the interpreter after it, the text written, and
/// the error or what is left to do.
pub open spec fn spec_command(v: TuiView, a: Seq<Seq<char>>, cmd: Command, usage: Seq<char>) -> (
    TuiView,
    Seq<char>,
    Result<PendingView, ErrView>,
) {
    match cmd {
        Command::Add => lift(v, cmd_add(v.cdll, a, usage)),
        Command::Remove => lift(v, cmd_each(EachCmd::Remove, v.cdll, a, usage)),
        Command::Read => lift(v, cmd_each(EachCmd::Read, v.cdll, a, usage)),
        Command::UnlinkAll => lift(v, cmd_each(EachCmd::UnlinkAll, v.cdll, a, usage)),
        Command::Rename => lift(v, cmd_rename(v.cdll, a, usage)),
        Command::ReadAll => (v, paths_text(v.cdll), Ok(PendingView::Nothing)),
        Command::Link => lift(v, cmd_link(v.cdll, a, usage)),
        Command::Merge => lift(v, cmd_merge(v.cdll, a, usage)),
        Command::Unlink => lift(v, cmd_unlink(v.cdll, a, usage)),
        Command::ChangeTier => lift(v, cmd_change_tier(v.cdll, a, usage)),
        Command::GetFusions => lift(v, cmd_get_fusions(v.cdll, a, usage)),
        Command::BuildTree => lift(v, cmd_build_tree(v.cdll, a, usage)),
        Command::Find => lift(v, cmd_find(v.cdll, a, usage)),
        Command::Todo => (v, todo_text(v.cdll), Ok(PendingView::Nothing)),
        Command::RemoveAll => (v, no_text(), Ok(PendingView::RemoveAll(ask("All cube data will be erased without saving."@)))),
        Command::SaveTo => cmd_save_to(v, a, usage),
        Command::LoadFrom => cmd_load_from(v, a, usage),
        Command::Exit => cmd_exit(v),
        Command::Usage => (v, usage_listing(v.commands), Ok(PendingView::Nothing)),
    }
}

/// Running the command named by `a[0]`: looked up in the command table;
/// an unknown name is an `InvalidCommand`.
pub open spec fn spec_run(v: TuiView, a: Seq<Seq<char>>) -> (TuiView, Seq<char>, Result<PendingView, ErrView>) {
    if has_key(v.commands, a[0]) {
        let e = value_of(v.commands, a[0]);
        spec_command(v, a, e.command, e.usage)
    } else {
        (v, no_text(), Err(ErrView::InvalidCommand(a[0])))
    }
}

/// A line typed at the prompt: its words are run as a command, then the
/// save flag is set by the command's name. An empty line does nothing.
pub open spec fn spec_line(v: TuiView, line: Seq<char>) -> (TuiView, Seq<char>, Option<Result<PendingView, ErrView>>) {
    let a = tokens(line);
    if a.len() == 0 {
        (v, no_text(), None)
    } else {
        let (w, t, r) = spec_run(v, a);
        (spec_save_flag(w, a[0]), t, Some(r))
    }
}

fn tui_string(s: &str) -> (r: String)
    ensures
        r@ == s@,
{
    string_of(s)
}

fn new_entry(command: Command, usage: &str, description: &str) -> (r: CommandEntry)
    ensures
        r@ == entry(command, usage@, description@),
{
    CommandEntry { command, usage: tui_string(usage), description: tui_string(description) }
}

fn bind(table: &mut Vec<(String, CommandEntry)>, name: &str, e: CommandEntry)
    ensures
        table_view(final(table)@) == table_view(old(table)@).push((name@, e@)),
{
    table.push((tui_string(name), e));
    assert(table_view(table@) =~= table_view(old(table)@).push((name@, e@)));
}

/// The command table: each command name with what it runs, its usage and
/// its description.
pub fn get_commands_hashmap() -> (r: Vec<(String, CommandEntry)>)
    ensures
        table_view(r@) == command_table(),
{
    let mut t: Vec<(String, CommandEntry)> = Vec::new();
    bind(&mut t, "add", new_entry(Command::Add, "<add ((cube_name) (Tier))+>", "Adds cube with name and tier"));
    bind(&mut t, "remove", new_entry(Command::Remove, "<destroy|drop|remove (cube_name)+>", "Destroys a cube and all its links with other cubes"));
    bind(&mut t, "drop", new_entry(Command::Remove, "<destroy|drop|remove (cube_name)+>", "Destroys a cube and all its links with other cubes"));
    bind(&mut t, "destroy", new_entry(Command::Remove, "<destroy|drop|remove (cube_name)+>", "Destroys a cube and all its links with other cubes"));
    bind(&mut t, "rename", new_entry(Command::Rename, "<rename (cube) to (new_name)>", "Renames a cube and all its links with will be changed to that name"));
    bind(&mut t, "read", new_entry(Command::Read, "<read (cube_name)+>", "Reads a cube's properties and also reads cubes with associated fusions"));
    bind(&mut t, "read_all", new_entry(Command::ReadAll, "<read_all>", "Reads all cubes' properties in the program"));
    bind(&mut t, "link", new_entry(Command::Link, "<fuse|link (cube_name) with (cube_1) (cube_2)?>", "Links 1 or 2 cubes together for a cube_name"));
    bind(&mut t, "fuse", new_entry(Command::Link, "<fuse|link (cube_name) with (cube_1) (cube_2)?>", "Links 1 or 2 cubes together for a cube_name"));
    bind(&mut t, "merge", new_entry(Command::Merge, "<merge (cube_a) (cube_b) in (cube_name)>", "Merge links of single cubes using link commands"));
    bind(&mut t, "unlink", new_entry(Command::Unlink, "<unfuse|unlink (cube_1) (cube_2)? in (cube_name)>", "Unlinks cube fusions for the specified cube_name"));
    bind(&mut t, "unfuse", new_entry(Command::Unlink, "<unfuse|unlink (cube_1) (cube_2)? in (cube_name)>", "Unlinks cube fusions for the specified cube_name"));
    bind(&mut t, "unlink_all", new_entry(Command::UnlinkAll, "<unfuse_all|unlink_all (cube_name)+>", "Unlinks all fusions and associations of conversions for a cube"));
    bind(&mut t, "unfuse_all", new_entry(Command::UnlinkAll, "<unfuse_all|unlink_all (cube_name)+>", "Unlinks all fusions and associations of conversions for a cube"));
    bind(&mut t, "exit", new_entry(Command::Exit, "<exit>", "Exits the program. Will ask to save unsaved data if any."));
    bind(&mut t, "save_to", new_entry(Command::SaveTo, "<save_to (file_name)>", "Saves data to a text file"));
    bind(&mut t, "write_to", new_entry(Command::SaveTo, "<save_to (file_name)>", "Saves data to a text file"));
    bind(&mut t, "load_from", new_entry(Command::LoadFrom, "<load_from (file_name)>", "Loads data from a text file"));
    bind(&mut t, "remove_all", new_entry(Command::RemoveAll, "<destroy_all|drop_all|remove_all>", "Clears all cube data in the program"));
    bind(&mut t, "drop_all", new_entry(Command::RemoveAll, "<destroy_all|drop_all|remove_all>", "Clears all cube data in the program"));
    bind(&mut t, "destroy_all", new_entry(Command::RemoveAll, "<destroy_all|drop_all|remove_all>", "Clears all cube data in the program"));
    bind(&mut t, "change_tier", new_entry(Command::ChangeTier, "<change_tier (cube_name) (this_tier)>", "Changes a tier for a specified cube"));
    bind(&mut t, "get_fusions", new_entry(Command::GetFusions, "<get_fusions (cube_name)>", "Gets all cube fusions for the specified cube. Similar to read, but prints/enumerates cube fusions instead."));
    bind(&mut t, "build_tree", new_entry(Command::BuildTree, "<build_tree (cube_name)>", "Gets all associated cube fusions to make this cube."));
    bind(&mut t, "find", new_entry(Command::Find, "<find|search starts_with|contains (partial cube_name)>", "Finds all associated cube names within the program (case-insensitive)"));
    bind(&mut t, "search", new_entry(Command::Find, "<find|search starts_with|contains (partial cube_name)>", "Finds all associated cube names within the program (case-insensitive)"));
    bind(&mut t, "todo", new_entry(Command::Todo, "<todo>", "Finds tiers that have not been set yet (-1), finds single fusions not set yet to double, and finds ? fusions."));
    bind(&mut t, "usage", new_entry(Command::Usage, "<usage>", "Sees all commands used within the program"));
    assert(table_view(t@) =~= command_table());
    t
}

impl Default for TUI {
    /// No cubes, not done, the full command table, nothing unsaved.
    fn default() -> (r: Self)
        ensures
            r@ == initial_tui(),
            r@.wf(),
    {
        let cdll = CubeDLL::new();
        assert(cdll@.cubes =~= empty_dll().cubes);
        assert(cdll@.hashmap =~= empty_dll().hashmap);
        TUI { cdll, done_program: false, hm_command: get_commands_hashmap(), has_saved: true }
    }
}

impl TUI {
    /// Whether `exit` has ended the program.
    pub fn is_program_done(&self) -> (r: bool)
        ensures
            r == self@.done,
    {
        self.done_program
    }

    /// Whether nothing is left unsaved.
    pub fn b_has_saved(&self) -> (r: bool)
        ensures
            r == self@.saved,
    {
        self.has_saved
    }

    /// `set_save_flag`: after running command `arg`, marks the data unsaved
    /// unless the command only reads or settles saving itself.
    pub fn set_save_flag(&mut self, arg: &str)
        ensures
            final(self)@ == spec_save_flag(old(self)@, arg@),
    {
        let keep = str_eq(arg, "destroy_all") || str_eq(arg, "drop_all") || str_eq(arg, "remove_all") || str_eq(
            arg,
            "save_to",
        ) || str_eq(arg, "write_to") || str_eq(arg, "load_from") || str_eq(arg, "read") || str_eq(arg, "read_all")
            || str_eq(arg, "get_fusions") || str_eq(arg, "build_tree") || str_eq(arg, "find") || str_eq(arg, "search")
            || str_eq(arg, "usage") || str_eq(arg, "todo") || str_eq(arg, "exit");
        if !keep {
            self.has_saved = false;
        }
    }

    /// Whether a cube named `key` is in the map.
    pub fn cube_exists(&self, key: &String) -> (r: bool)
        ensures
            r == has_key(self@.cdll.hashmap, key@),
    {
        named_get(&self.cdll.hashmap, key).is_some()
    }

    /// The entries of the map whose names pass the filter, in map order.
    fn filtered_entries(&self, filter_opt: &Option<String>) -> (r: Vec<(String, usize)>)
        ensures
            named_view(r@) == filtered(self@.cdll.hashmap, filter_view(*filter_opt), self@.cdll.hashmap.len()),
    {
        let ghost hm = self@.cdll.hashmap;
        let ghost f = filter_view(*filter_opt);
        let low = match filter_opt {
            Some(s) => Some(to_lowercase(s.as_str())),
            None => None,
        };
        let mut r: Vec<(String, usize)> = Vec::new();
        let mut i: usize = 0;
        assert(named_view(r@) =~= filtered(hm, f, 0));
        while i < self.cdll.hashmap.len()
            invariant
                hm == self@.cdll.hashmap,
                f == filter_view(*filter_opt),
                i <= hm.len(),
                match low {
                    Some(l) => f matches Some(s) && l@ == lowercase(s),
                    None => f is None,
                },
                named_view(r@) == filtered(hm, f, i as nat),
            decreases self.cdll.hashmap.len() - i,
        {
            let name = &self.cdll.hashmap[i].0;
            assert(hm[i as int] == (self.cdll.hashmap@[i as int].0@, self.cdll.hashmap@[i as int].1));
            let keep = match &low {
                None => true,
                Some(l) => {
                    let nl = to_lowercase(name.as_str());
                    text_contains(nl.as_str(), l.as_str())
                },
            };
            if keep {
                r.push((name.clone(), self.cdll.hashmap[i].1));
            }
            assert(named_view(r@) =~= filtered(hm, f, (i + 1) as nat));
            i = i + 1;
        }
        r
    }

    /// `cube_count`: how many names of the map pass the filter (all of
    /// them, or those holding the filter, ignoring case).
    pub fn cube_count(&self, filter_opt: Option<String>) -> (r: usize)
        ensures
            r == filtered(self@.cdll.hashmap, filter_view(filter_opt), self@.cdll.hashmap.len()).len(),
    {
        let es = self.filtered_entries(&filter_opt);
        es.len()
    }

    /// `cube_keys`: the names of the map that pass the filter, sorted.
    pub fn cube_keys(&self, filter_opt: Option<String>) -> (r: Vec<String>)
        ensures
            strings_view(r@) == names_of(isort(filtered(self@.cdll.hashmap, filter_view(filter_opt), self@.cdll.hashmap.len()))),
    {
        let es = self.filtered_entries(&filter_opt);
        let sorted = sort_by_name(&es);
        let mut r: Vec<String> = Vec::new();
        let mut i: usize = 0;
        while i < sorted.len()
            invariant
                i <= sorted@.len(),
                strings_view(r@) == names_of(named_view(sorted@)).subrange(0, i as int),
            decreases sorted.len() - i,
        {
            assert(named_view(sorted@)[i as int].0 == sorted@[i as int].0@);
            let nm = sorted[i].0.clone();
            let ghost r0 = r@;
            r.push(nm);
            assert(r@ == r0.push(nm));
            assert(strings_view(r@) =~= strings_view(r0).push(nm@));
            assert(strings_view(r@) =~= names_of(named_view(sorted@)).subrange(0, i + 1));
            i = i + 1;
        }
        assert(names_of(named_view(sorted@)).subrange(0, sorted@.len() as int) =~= names_of(named_view(sorted@)));
        r
    }
}


/// The value of a flagged outcome.
pub open spec fn flag_view(r: CSResult<bool>) -> Result<bool, ErrView> {
    match r {
        Ok(b) => Ok(b),
        Err(e) => Err(e@),
    }
}

/// The interpreter with its graph replaced.
pub open spec fn with_dll(v: TuiView, w: DllView) -> TuiView {
    TuiView { cdll: w, ..v }
}

proof fn lemma_add_fold_stops(v: DllView, a: Seq<Seq<char>>, k: nat, n: nat)
    requires
        add_fold(v, a, k).2 != Ok::<bool, ErrView>(true),
        k <= n,
    ensures
        add_fold(v, a, n) == add_fold(v, a, k),
    decreases n - k,
{
    if n > k {
        lemma_add_fold_stops(v, a, k, (n - 1) as nat);
    }
}

proof fn lemma_each_no_halt(kind: EachCmd, v: DllView, ns: Seq<Seq<char>>, k: nat)
    requires
        kind != EachCmd::Read,
    ensures
        each_fold(kind, v, ns, k).2 != Ok::<bool, ErrView>(false),
    decreases k,
{
    reveal(each_step);
    if k > 0 {
        lemma_each_no_halt(kind, v, ns, (k - 1) as nat);
    }
}

proof fn lemma_each_fold_stops(kind: EachCmd, v: DllView, ns: Seq<Seq<char>>, k: nat, n: nat)
    requires
        each_fold(kind, v, ns, k).2 != Ok::<bool, ErrView>(true),
        k <= n,
    ensures
        each_fold(kind, v, ns, n) == each_fold(kind, v, ns, k),
    decreases n - k,
{
    if n > k {
        lemma_each_fold_stops(kind, v, ns, k, (n - 1) as nat);
    }
}

impl TUI {
    /// Adds one cube of the `add` command.
    fn add_one(&mut self, name: &String, tier: &String, out: &mut String) -> (r: CSResult<()>)
        requires
            old(self)@.wf(),
        ensures
            final(self)@.wf(),
            ({
                let (w, t, e) = add_step(old(self)@.cdll, name@, tier@);
                final(self)@ == with_dll(old(self)@, w) && final(out)@ == old(out)@ + t && go_on(outcome(r)) == e
            }),
    {
        reveal(add_step);
        let ghost o = out@;
        match check_valid_cube_name(name.as_str()) {
            Err(e) => {
                assert(out@ =~= o + no_text());
                return Err(e);
            },
            Ok(_) => {},
        }
        if str_eq(name.as_str(), "?") {
            assert(out@ =~= o + no_text());
            return Err(CSError::InvalidArguments(string_of("? cannot be added other than using it for linking")));
        }
        let t = match parse_i32(tier.as_str()) {
            Err(e) => {
                assert(out@ =~= o + no_text());
                return Err(CSError::OtherError(e));
            },
            Ok(t) => t,
        };
        let cs = CubeStruct::new(name.clone(), t);
        assert(cs@.converts_to.len() == 0 && cs@.fused_by.len() == 0);
        match self.cdll.add(cs) {
            Err(e) => {
                assert(out@ =~= o + no_text());
                return Err(e);
            },
            Ok(_) => {},
        }
        put(out, "Cube \"");
        put(out, name.as_str());
        put(out, "\" added\n");
        assert(out@ =~= o + ("Cube \""@ + name@ + "\" added\n"@));
        Ok(())
    }

    /// `add ((cube_name) (Tier))+`: adds each cube in turn.
    #[verifier::loop_isolation(false)]
    pub fn add_cmd(&mut self, args: &Vec<String>, usage: &str, out: &mut String) -> (r: CSResult<()>)
        requires
            old(self)@.wf(),
            args@.len() >= 1,
        ensures
            final(self)@.wf(),
            ({
                let (w, t, e) = cmd_add(old(self)@.cdll, strings_view(args@), usage@);
                final(self)@ == with_dll(old(self)@, w) && final(out)@ == old(out)@ + t && go_on(outcome(r)) == e
            }),
    {
        let ghost a = strings_view(args@);
        let ghost v = self@;
        let ghost o = out@;
        if args.len() % 2 == 0 || args.len() == 1 {
            assert(out@ =~= o + no_text());
            return Err(CSError::InvalidArguments(string_of(usage)));
        }
        let n = args.len();
        let total = (n - 1) / 2;
        let mut k: usize = 0;
        while k < total
            invariant
                a == strings_view(args@),
                args@.len() % 2 == 1,
                total == (args@.len() - 1) / 2,
                2 * total + 1 == args@.len(),
                n == args@.len(),
                k <= total,
                self@.wf(),
                ({
                    let (w, t, e) = add_fold(v.cdll, a, k as nat);
                    self@ == with_dll(v, w) && out@ == o + t && e == Ok::<bool, ErrView>(true)
                }),
            decreases total - k,
        {
            assert(2 * k + 2 <= args@.len());
            assert(a[2 * k + 1] == args@[2 * k + 1]@ && a[2 * k + 2] == args@[2 * k + 2]@);
            let step = self.add_one(&args[2 * k + 1], &args[2 * k + 2], out);
            assert(out@ =~= o + add_fold(v.cdll, a, (k + 1) as nat).1);
            let ghost k1 = (k + 1) as nat;
            assert(a[2 * k1 - 1] == a[2 * k + 1] && a[(2 * k1) as int] == a[2 * k + 2]);
            match step {
                Err(e) => {
                    proof {
                        lemma_add_fold_stops(v.cdll, a, (k + 1) as nat, total as nat);
                    }
                    return Err(e);
                },
                Ok(_) => {},
            }
            assert(add_fold(v.cdll, a, k1).2 == Ok::<bool, ErrView>(true));
            assert(self@ == with_dll(v, add_fold(v.cdll, a, k1).0));
            k = k + 1;
        }
        Ok(())
    }

    /// Treats one cube of a per-name command.
    fn each_one(&mut self, kind: EachCmd, name: &String, out: &mut String) -> (r: CSResult<bool>)
        requires
            old(self)@.wf(),
        ensures
            final(self)@.wf(),
            ({
                let (w, t, e) = each_step(kind, old(self)@.cdll, name@);
                final(self)@ == with_dll(old(self)@, w) && final(out)@ == old(out)@ + t && flag_view(r) == e
            }),
    {
        reveal(each_step);
        let ghost o = out@;
        if kind == EachCmd::Remove && str_eq(name.as_str(), "?") {
            assert(out@ =~= o + no_text());
            return Err(
                CSError::InvalidArguments(string_of("? cannot be destroyed. Use unlink command to remove ? links instead.")),
            );
        }
        match check_valid_cube_name(name.as_str()) {
            Err(e) => {
                assert(out@ =~= o + no_text());
                return Err(e);
            },
            Ok(_) => {},
        }
        match self.cdll.point_to(name.clone()) {
            Err(e) => {
                assert(out@ =~= o + no_text());
                return Err(e);
            },
            Ok(_) => {},
        }
        let ghost w1 = self@.cdll;
        match kind {
            EachCmd::Remove => {
                match self.cdll.destroy_at_p(out) {
                    Err(e) => {
                        return Err(e);
                    },
                    Ok(_) => {},
                }
                let ghost o2 = out@;
                put(out, "Cube \"");
                put(out, name.as_str());
                put(out, "\" and all of its links have been destroyed.\n");
                assert(out@ =~= o2 + ("Cube \""@ + name@ + "\" and all of its links have been destroyed.\n"@));
                Ok(true)
            },
            EachCmd::Read => {
                let complete = self.cdll.get_info_p(out);
                Ok(complete)
            },
            EachCmd::UnlinkAll => {
                match self.cdll.unlink_at_p_fb() {
                    Err(e) => {
                        assert(out@ =~= o + no_text());
                        return Err(e);
                    },
                    Ok(_) => {},
                }
                put(out, "Successfully unlinked cube \"");
                put(out, name.as_str());
                put(out, "\"'s fused_by properties.\n");
                assert(out@ =~= o + ("Successfully unlinked cube \""@ + name@ + "\"'s fused_by properties.\n"@));
                Ok(true)
            },
        }
    }

    /// A per-name command: each name after the command's own, in turn.
    #[verifier::loop_isolation(false)]
    fn each_cmd(&mut self, kind: EachCmd, args: &Vec<String>, usage: &str, out: &mut String) -> (r: CSResult<bool>)
        requires
            old(self)@.wf(),
            args@.len() >= 1,
        ensures
            final(self)@.wf(),
            ({
                let (w, t, e) = cmd_each(kind, old(self)@.cdll, strings_view(args@), usage@);
                final(self)@ == with_dll(old(self)@, w) && final(out)@ == old(out)@ + t && flag_view(r) == e
            }),
    {
        let ghost a = strings_view(args@);
        let ghost ns = a.drop_first();
        let ghost v = self@;
        let ghost o = out@;
        if args.len() == 1 {
            assert(out@ =~= o + no_text());
            return Err(CSError::InvalidArguments(string_of(usage)));
        }
        let total = args.len() - 1;
        let mut k: usize = 0;
        while k < total
            invariant
                a == strings_view(args@),
                ns == a.drop_first(),
                total == args@.len() - 1,
                k <= total,
                self@.wf(),
                ({
                    let (w, t, e) = each_fold(kind, v.cdll, ns, k as nat);
                    self@ == with_dll(v, w) && out@ == o + t && e == Ok::<bool, ErrView>(true)
                }),
            decreases total - k,
        {
            assert(ns[k as int] == args@[k + 1]@);
            let step = self.each_one(kind, &args[k + 1], out);
            assert(out@ =~= o + each_fold(kind, v.cdll, ns, (k + 1) as nat).1);
            match step {
                Ok(true) => {},
                _ => {
                    assert(flag_view(step) == each_fold(kind, v.cdll, ns, (k + 1) as nat).2);
                    assert(self@ == with_dll(v, each_fold(kind, v.cdll, ns, (k + 1) as nat).0));
                    proof {
                        lemma_each_fold_stops(kind, v.cdll, ns, (k + 1) as nat, total as nat);
                    }
                    assert(a.len() - 1 == total);
                    return step;
                },
            }
            k = k + 1;
        }
        Ok(true)
    }

    /// `destroy|drop|remove (cube_name)+`: destroys each cube in turn.
    pub fn rm_cmd(&mut self, args: &Vec<String>, usage: &str, out: &mut String) -> (r: CSResult<()>)
        requires
            old(self)@.wf(),
            args@.len() >= 1,
        ensures
            final(self)@.wf(),
            ({
                let (w, t, e) = cmd_each(EachCmd::Remove, old(self)@.cdll, strings_view(args@), usage@);
                final(self)@ == with_dll(old(self)@, w) && final(out)@ == old(out)@ + t && go_on(outcome(r)) == e
            }),
    {
        proof {
            lemma_each_no_halt(EachCmd::Remove, self@.cdll, strings_view(args@).drop_first(), (args@.len() - 1) as nat);
        }
        match self.each_cmd(EachCmd::Remove, args, usage, out) {
            Ok(_) => Ok(()),
            Err(e) => Err(e),
        }
    }

    /// `read (cube_name)+`: reads each cube in turn; `Ok(false)` when a cube
    /// read converts to a cube no longer in the map (the program stops).
    pub fn read_cmd(&mut self, args: &Vec<String>, usage: &str, out: &mut String) -> (r: CSResult<bool>)
        requires
            old(self)@.wf(),
            args@.len() >= 1,
        ensures
            final(self)@.wf(),
            ({
                let (w, t, e) = cmd_each(EachCmd::Read, old(self)@.cdll, strings_view(args@), usage@);
                final(self)@ == with_dll(old(self)@, w) && final(out)@ == old(out)@ + t && flag_view(r) == e
            }),
    {
        self.each_cmd(EachCmd::Read, args, usage, out)
    }

    /// `unfuse_all|unlink_all (cube_name)+`: each cube loses its keys.
    pub fn unlink_all_cmd(&mut self, args: &Vec<String>, usage: &str, out: &mut String) -> (r: CSResult<()>)
        requires
            old(self)@.wf(),
            args@.len() >= 1,
        ensures
            final(self)@.wf(),
            ({
                let (w, t, e) = cmd_each(EachCmd::UnlinkAll, old(self)@.cdll, strings_view(args@), usage@);
                final(self)@ == with_dll(old(self)@, w) && final(out)@ == old(out)@ + t && go_on(outcome(r)) == e
            }),
    {
        proof {
            lemma_each_no_halt(EachCmd::UnlinkAll, self@.cdll, strings_view(args@).drop_first(), (args@.len() - 1) as nat);
        }
        match self.each_cmd(EachCmd::UnlinkAll, args, usage, out) {
            Ok(_) => Ok(()),
            Err(e) => Err(e),
        }
    }
}


/// A command on the graph ran from `v0` and `o0` to `v1` and `o1` with
/// outcome `r`, as `x` says.
pub open spec fn ran(
    v0: TuiView,
    o0: Seq<char>,
    v1: TuiView,
    o1: Seq<char>,
    r: Result<bool, ErrView>,
    x: (DllView, Seq<char>, Result<bool, ErrView>),
) -> bool {
    v1 == with_dll(v0, x.0) && o1 == o0 + x.1 && r == x.2
}

/// The error that a bad shape of arguments gives.
fn usage_error(usage: &str) -> (e: CSError)
    ensures
        e@ == bad_args(usage@),
{
    CSError::InvalidArguments(string_of(usage))
}

impl TUI {
    /// `rename (cube) to (new_name)`.
    pub fn rename_cmd(&mut self, args: &Vec<String>, usage: &str, out: &mut String) -> (r: CSResult<()>)
        requires
            old(self)@.wf(),
            args@.len() >= 1,
        ensures
            final(self)@.wf(),
            ran(old(self)@, old(out)@, final(self)@, final(out)@, go_on(outcome(r)), cmd_rename(old(self)@.cdll, strings_view(args@), usage@)),
    {
        let ghost a = strings_view(args@);
        let ghost o = out@;
        if args.len() != 4 || !str_eq(args[2].as_str(), "to") {
            assert(out@ =~= o + no_text());
            return Err(usage_error(usage));
        }
        assert(a[1] == args@[1]@ && a[2] == args@[2]@ && a[3] == args@[3]@);
        if str_eq(args[1].as_str(), "?") || str_eq(args[3].as_str(), "?") {
            assert(out@ =~= o + no_text());
            return Err(CSError::InvalidArguments(string_of("? cannot be renamed or be used as a name")));
        }
        if let Err(e) = check_valid_cube_name(args[1].as_str()) {
            assert(out@ =~= o + no_text());
            return Err(e);
        }
        if let Err(e) = check_valid_cube_name(args[3].as_str()) {
            assert(out@ =~= o + no_text());
            return Err(e);
        }
        if let Err(e) = self.cdll.point_to(args[1].clone()) {
            assert(out@ =~= o + no_text());
            return Err(e);
        }
        let ghost w1 = self@.cdll;
        assert(spec_point_to(old(self)@.cdll, a[1]).0 == w1);
        if let Err(e) = self.cdll.rename_at_p(args[3].clone(), out) {
            return Err(e);
        }
        let ghost o2 = out@;
        assert(spec_rename(w1, a[3]).2 is Ok);
        assert(spec_rename(w1, a[3]).0 == self@.cdll);
        assert(o2 == o + spec_rename(w1, a[3]).1);
        put(out, "Cube \"");
        put(out, args[1].as_str());
        put(out, "\" successfully renamed to \"");
        put(out, args[3].as_str());
        put(out, "\"\n");
        assert(out@ =~= o2 + ("Cube \""@ + a[1] + "\" successfully renamed to \""@ + a[3] + "\"\n"@));
        assert(cmd_rename(old(self)@.cdll, a, usage@).0 == self@.cdll);
        assert(out@ == o + cmd_rename(old(self)@.cdll, a, usage@).1);
        assert(cmd_rename(old(self)@.cdll, a, usage@).2 == Ok::<bool, ErrView>(true));
        assert(self@ == with_dll(old(self)@, self@.cdll));
        Ok(())
    }

    /// `fuse|link (cube_name) with (cube_1) (cube_2)?`.
    pub fn link_cmd(&mut self, args: &Vec<String>, usage: &str, out: &mut String) -> (r: CSResult<()>)
        requires
            old(self)@.wf(),
            args@.len() >= 1,
        ensures
            final(self)@.wf(),
            ran(old(self)@, old(out)@, final(self)@, final(out)@, go_on(outcome(r)), cmd_link(old(self)@.cdll, strings_view(args@), usage@)),
    {
        let ghost a = strings_view(args@);
        let ghost o = out@;
        let n = args.len();
        if (n != 4 && n != 5) || !str_eq(args[2].as_str(), "with") {
            assert(out@ =~= o + no_text());
            return Err(usage_error(usage));
        }
        assert(a[1] == args@[1]@ && a[2] == args@[2]@ && a[3] == args@[3]@);
        if let Err(e) = check_valid_cube_name(args[1].as_str()) {
            assert(out@ =~= o + no_text());
            return Err(e);
        }
        if let Err(e) = self.cdll.point_to(args[1].clone()) {
            assert(out@ =~= o + no_text());
            return Err(e);
        }
        if let Err(e) = check_valid_cube_name(args[3].as_str()) {
            assert(out@ =~= o + no_text());
            return Err(e);
        }
        if str_eq(args[3].as_str(), "?") {
            assert(out@ =~= o + no_text());
            return Err(CSError::InvalidArguments(string_of("? cannot be used to fuse with another cube")));
        }
        if n == 4 {
            let ghost w1 = self@.cdll;
            if let Err(e) = self.cdll.link_at_p_fb_single(args[3].clone(), out) {
                return Err(e);
            }
            let ghost o2 = out@;
            assert(spec_link_single(w1, a[3]).2 is Ok);
            put(out, "Successfully linked cube \"");
            put(out, args[1].as_str());
            put(out, "\" with \"");
            put(out, args[3].as_str());
            put(out, "\"\n");
            assert(out@ =~= o2 + ("Successfully linked cube \""@ + a[1] + "\" with \""@ + a[3] + "\"\n"@));
            assert(cmd_link(old(self)@.cdll, a, usage@).0 == self@.cdll);
            assert(out@ == o + cmd_link(old(self)@.cdll, a, usage@).1);
            assert(cmd_link(old(self)@.cdll, a, usage@).2 == Ok::<bool, ErrView>(true));
        } else {
            assert(a[4] == args@[4]@);
            if let Err(e) = check_valid_cube_name(args[4].as_str()) {
                assert(out@ =~= o + no_text());
                return Err(e);
            }
            if str_eq(args[4].as_str(), "?") {
                assert(out@ =~= o + no_text());
                return Err(CSError::InvalidArguments(string_of("? cannot be used to fuse with another cube")));
            }
            let ghost w1 = self@.cdll;
            if let Err(e) = self.cdll.link_at_p_fb_pair(args[3].clone(), args[4].clone(), out) {
                return Err(e);
            }
            let ghost o2 = out@;
            assert(spec_link_pair(w1, a[3], a[4]).2 is Ok);
            put(out, "Successfully linked cube \"");
            put(out, args[1].as_str());
            put(out, "\" with \"");
            put(out, args[3].as_str());
            put(out, "\" and \"");
            put(out, args[4].as_str());
            put(out, "\"\n");
            assert(out@ =~= o2 + ("Successfully linked cube \""@ + a[1] + "\" with \""@ + a[3] + "\" and \""@ + a[4]
                + "\"\n"@));
            assert(cmd_link(old(self)@.cdll, a, usage@).0 == self@.cdll);
            assert(out@ == o + cmd_link(old(self)@.cdll, a, usage@).1);
            assert(cmd_link(old(self)@.cdll, a, usage@).2 == Ok::<bool, ErrView>(true));
        }
        assert(self@ == with_dll(old(self)@, self@.cdll));
        Ok(())
    }

    /// `merge (cube_a) (cube_b) in (cube_name)`.
    pub fn merge_cmd(&mut self, args: &Vec<String>, usage: &str, out: &mut String) -> (r: CSResult<()>)
        requires
            old(self)@.wf(),
            args@.len() >= 1,
        ensures
            final(self)@.wf(),
            ran(old(self)@, old(out)@, final(self)@, final(out)@, go_on(outcome(r)), cmd_merge(old(self)@.cdll, strings_view(args@), usage@)),
    {
        let ghost a = strings_view(args@);
        let ghost o = out@;
        if args.len() != 5 || !str_eq(args[3].as_str(), "in") {
            assert(out@ =~= o + no_text());
            return Err(usage_error(usage));
        }
        assert(a[1] == args@[1]@ && a[2] == args@[2]@ && a[3] == args@[3]@ && a[4] == args@[4]@);
        if let Err(e) = check_valid_cube_name(args[1].as_str()) {
            assert(out@ =~= o + no_text());
            return Err(e);
        }
        if str_eq(args[1].as_str(), "?") {
            assert(out@ =~= o + no_text());
            return Err(CSError::InvalidArguments(string_of("? cannot be used to merge")));
        }
        if let Err(e) = check_valid_cube_name(args[2].as_str()) {
            assert(out@ =~= o + no_text());
            return Err(e);
        }
        if str_eq(args[2].as_str(), "?") {
            assert(out@ =~= o + no_text());
            return Err(CSError::InvalidArguments(string_of("? cannot be used to merge")));
        }
        if let Err(e) = check_valid_cube_name(args[4].as_str()) {
            assert(out@ =~= o + no_text());
            return Err(e);
        }
        if let Err(e) = self.cdll.point_to(args[4].clone()) {
            assert(out@ =~= o + no_text());
            return Err(e);
        }
        let ghost w1 = self@.cdll;
        if let Err(e) = self.cdll.merge_keys_at_p(args[1].clone(), args[2].clone(), out) {
            return Err(e);
        }
        let ghost o2 = out@;
        assert(spec_merge(w1, a[1], a[2]).2 is Ok);
        put(out, "Successfully merged keys \"");
        put(out, args[1].as_str());
        put(out, "\" with \"");
        put(out, args[2].as_str());
        put(out, "\" for \"");
        put(out, args[4].as_str());
        put(out, "\"\n");
        assert(out@ =~= o2 + ("Successfully merged keys \""@ + a[1] + "\" with \""@ + a[2] + "\" for \""@ + a[4] + "\"\n"@));
        assert(cmd_merge(old(self)@.cdll, a, usage@).0 == self@.cdll);
        assert(out@ == o + cmd_merge(old(self)@.cdll, a, usage@).1);
        assert(cmd_merge(old(self)@.cdll, a, usage@).2 == Ok::<bool, ErrView>(true));
        assert(self@ == with_dll(old(self)@, self@.cdll));
        Ok(())
    }

    /// `unfuse|unlink (cube_1) (cube_2)? in (cube_name)`.
    pub fn unlink_cmd(&mut self, args: &Vec<String>, usage: &str, out: &mut String) -> (r: CSResult<()>)
        requires
            old(self)@.wf(),
            args@.len() >= 1,
        ensures
            final(self)@.wf(),
            ran(old(self)@, old(out)@, final(self)@, final(out)@, go_on(outcome(r)), cmd_unlink(old(self)@.cdll, strings_view(args@), usage@)),
    {
        let ghost a = strings_view(args@);
        let ghost o = out@;
        let n = args.len();
        if (n != 4 && n != 5) || !str_eq(args[n - 2].as_str(), "in") {
            assert(out@ =~= o + no_text());
            return Err(usage_error(usage));
        }
        assert(a[1] == args@[1]@ && a[2] == args@[2]@ && a[n - 1] == args@[n - 1]@ && a[n - 2] == args@[n - 2]@);
        if let Err(e) = check_valid_cube_name(args[n - 1].as_str()) {
            assert(out@ =~= o + no_text());
            return Err(e);
        }
        if let Err(e) = self.cdll.point_to(args[n - 1].clone()) {
            assert(out@ =~= o + no_text());
            return Err(e);
        }
        if let Err(e) = check_valid_cube_name(args[1].as_str()) {
            assert(out@ =~= o + no_text());
            return Err(e);
        }
        if str_eq(args[1].as_str(), "?") {
            assert(out@ =~= o + no_text());
            return Err(CSError::InvalidArguments(string_of("? cannot be unlinked with another cube")));
        }
        if n == 5 {
            if let Err(e) = check_valid_cube_name(args[2].as_str()) {
                assert(out@ =~= o + no_text());
                return Err(e);
            }
            if str_eq(args[2].as_str(), "?") {
                assert(out@ =~= o + no_text());
                return Err(CSError::InvalidArguments(string_of("? cannot be unlinked with another cube")));
            }
        }
        let second = if n == 5 {
            Some(args[2].clone())
        } else {
            None
        };
        let ghost w1 = self@.cdll;
        let ghost sv: Option<Seq<char>> = if n == 5 {
            Some(a[2])
        } else {
            None
        };
        assert(match second {
            Some(x) => Some(x@),
            None => None,
        } == sv);
        if let Err(e) = self.cdll.unlink_at_p_fb_keys(args[1].clone(), second, out) {
            return Err(e);
        }
        let ghost o2 = out@;
        assert(spec_unlink_keys(w1, a[1], sv).2 is Ok);
        put(out, "Successfully removed for cube \"");
        put(out, args[n - 1].as_str());
        put(out, "\"\n");
        assert(out@ =~= o2 + ("Successfully removed for cube \""@ + a[n - 1] + "\"\n"@));
        assert(cmd_unlink(old(self)@.cdll, a, usage@).0 == self@.cdll);
        assert(out@ == o + cmd_unlink(old(self)@.cdll, a, usage@).1);
        assert(cmd_unlink(old(self)@.cdll, a, usage@).2 == Ok::<bool, ErrView>(true));
        assert(self@ == with_dll(old(self)@, self@.cdll));
        Ok(())
    }

    /// `change_tier (cube_name) (this_tier)`.
    pub fn change_tier_cmd(&mut self, args: &Vec<String>, usage: &str, out: &mut String) -> (r: CSResult<()>)
        requires
            old(self)@.wf(),
            args@.len() >= 1,
        ensures
            final(self)@.wf(),
            ran(old(self)@, old(out)@, final(self)@, final(out)@, go_on(outcome(r)), cmd_change_tier(old(self)@.cdll, strings_view(args@), usage@)),
    {
        let ghost a = strings_view(args@);
        let ghost o = out@;
        if args.len() != 3 {
            assert(out@ =~= o + no_text());
            return Err(usage_error(usage));
        }
        assert(a[1] == args@[1]@ && a[2] == args@[2]@);
        if let Err(e) = check_valid_cube_name(args[1].as_str()) {
            assert(out@ =~= o + no_text());
            return Err(e);
        }
        if let Err(e) = self.cdll.point_to(args[1].clone()) {
            assert(out@ =~= o + no_text());
            return Err(e);
        }
        if str_eq(args[1].as_str(), "?") {
            assert(out@ =~= o + no_text());
            return Err(CSError::InvalidArguments(string_of("? does not have a tier")));
        }
        let tier = match parse_i32(args[2].as_str()) {
            Ok(t) => t,
            Err(e) => {
                assert(out@ =~= o + no_text());
                return Err(CSError::OtherError(e));
            },
        };
        self.cdll.change_tier_at_p(tier, out)
    }

    /// `get_fusions (cube_name)`.
    pub fn get_fusions_cmd(&mut self, args: &Vec<String>, usage: &str, out: &mut String) -> (r: CSResult<()>)
        requires
            old(self)@.wf(),
            args@.len() >= 1,
        ensures
            final(self)@.wf(),
            ran(old(self)@, old(out)@, final(self)@, final(out)@, go_on(outcome(r)), cmd_get_fusions(old(self)@.cdll, strings_view(args@), usage@)),
    {
        let ghost a = strings_view(args@);
        let ghost o = out@;
        if args.len() != 2 {
            assert(out@ =~= o + no_text());
            return Err(usage_error(usage));
        }
        assert(a[1] == args@[1]@);
        if let Err(e) = check_valid_cube_name(args[1].as_str()) {
            assert(out@ =~= o + no_text());
            return Err(e);
        }
        if let Err(e) = self.cdll.point_to(args[1].clone()) {
            assert(out@ =~= o + no_text());
            return Err(e);
        }
        self.cdll.get_fusions_at_p(out)
    }

    /// `build_tree (cube_name)`: lists the tree of the cube; `Ok(false)`
    /// when the tree reaches a cube no longer in the map (the program stops).
    pub fn build_tree_cmd(&mut self, args: &Vec<String>, usage: &str, out: &mut String) -> (r: CSResult<bool>)
        requires
            old(self)@.wf(),
            args@.len() >= 1,
        ensures
            final(self)@.wf(),
            ran(old(self)@, old(out)@, final(self)@, final(out)@, flag_view(r), cmd_build_tree(old(self)@.cdll, strings_view(args@), usage@)),
    {
        let ghost a = strings_view(args@);
        let ghost o = out@;
        if args.len() != 2 {
            assert(out@ =~= o + no_text());
            return Err(usage_error(usage));
        }
        assert(a[0] == args@[0]@ && a[1] == args@[1]@);
        if let Err(e) = check_valid_cube_name(args[1].as_str()) {
            assert(out@ =~= o + no_text());
            return Err(e);
        }
        if let Err(e) = self.cdll.point_to(args[1].clone()) {
            assert(out@ =~= o + no_text());
            return Err(e);
        }
        self.cdll.build_tree_at_p(out, args[0].as_str())
    }
}


proof fn lemma_numbered_push(ns: Seq<Seq<char>>, x: Seq<char>, k: nat)
    requires
        k <= ns.len(),
    ensures
        numbered(ns.push(x), k) == numbered(ns, k),
    decreases k,
{
    if k > 0 {
        lemma_numbered_push(ns, x, (k - 1) as nat);
        assert(ns.push(x)[k - 1] == ns[k - 1]);
    }
}

proof fn lemma_lines_of_prefix(es: Seq<(Seq<char>, usize)>, fs: Seq<(Seq<char>, usize)>, k: nat)
    requires
        k <= es.len(),
        k <= fs.len(),
        forall|i: int| 0 <= i < k ==> es[i].0 == fs[i].0,
    ensures
        lines_of(es, k) == lines_of(fs, k),
    decreases k,
{
    if k > 0 {
        lemma_lines_of_prefix(es, fs, (k - 1) as nat);
    }
}

/// `m` followed by the yes-or-no question.
fn ask_text(m: &str) -> (r: String)
    ensures
        r@ == ask(m@),
{
    let mut r = string_of(m);
    put(&mut r, "\nContinue (y/n)? (n default)");
    r
}

/// Position of the command named `name` in the table, if any.
fn find_command(table: &Vec<(String, CommandEntry)>, name: &String) -> (r: Option<usize>)
    ensures
        match r {
            Some(i) => i as int == find_key(table_view(table@), name@) && i < table@.len(),
            None => find_key(table_view(table@), name@) == -1,
        },
{
    let ghost s = table_view(table@);
    proof {
        lemma_find_key(s, name@);
    }
    let mut i: usize = 0;
    while i < table.len()
        invariant
            s == table_view(table@),
            i <= table@.len(),
            forall|j: int| 0 <= j < i ==> s[j].0 != name@,
        decreases table.len() - i,
    {
        assert(s[i as int].0 == table@[i as int].0@);
        if str_eq(table[i].0.as_str(), name.as_str()) {
            proof {
                lemma_find_key_at(s, name@, i as int);
            }
            return Some(i);
        }
        i = i + 1;
    }
    None
}

/// The words of a line as strings.
fn word_strings(ws: &Vec<Vec<char>>) -> (r: Vec<String>)
    ensures
        strings_view(r@) == crate::load::words(ws@),
{
    let mut r: Vec<String> = Vec::new();
    let mut i: usize = 0;
    while i < ws.len()
        invariant
            i <= ws@.len(),
            strings_view(r@) == crate::load::words(ws@).subrange(0, i as int),
        decreases ws.len() - i,
    {
        let w = string_from_chars(&ws[i]);
        let ghost r0 = r@;
        r.push(w);
        assert(strings_view(r@) =~= strings_view(r0).push(w@));
        assert(strings_view(r@) =~= crate::load::words(ws@).subrange(0, i + 1));
        i = i + 1;
    }
    assert(crate::load::words(ws@).subrange(0, ws@.len() as int) =~= crate::load::words(ws@));
    r
}

/// What is done once the removal of all cubes is confirmed.
pub open spec fn spec_remove_all(v: TuiView) -> (TuiView, Seq<char>) {
    (TuiView { cdll: empty_dll(), saved: true, ..v }, "All cubes in the program have been removed.\n"@)
}

/// What loading the save text `file` does to the interpreter: the load of
/// the graph; everything counts as saved when it succeeds.
pub open spec fn spec_load_text(v: TuiView, file: Seq<char>) -> (TuiView, Seq<char>, Result<(), ErrView>) {
    let (w, t, e) = spec_load(v.cdll, file);
    (TuiView { cdll: w, saved: if e is Ok { true } else { v.saved }, ..v }, t, e)
}

impl TUI {
    /// The numbered names of the map that start with (`starts`) or hold
    /// `pat`, ignoring case, or `(None found)`.
    fn found_lines(&self, pat: &String, starts: bool) -> (r: String)
        requires
            self@.wf(),
        ensures
            r@ == found_text(found_names(self@.cdll.hashmap, pat@, starts, self@.cdll.hashmap.len())),
    {
        let ghost hm = self@.cdll.hashmap;
        let pl = to_lowercase(pat.as_str());
        let mut r = String::new();
        let mut count: usize = 0;
        let mut i: usize = 0;
        while i < self.cdll.hashmap.len()
            invariant
                hm == self@.cdll.hashmap,
                pl@ == lowercase(pat@),
                i <= hm.len(),
                count == found_names(hm, pat@, starts, i as nat).len(),
                count <= i,
                r@ == numbered(found_names(hm, pat@, starts, i as nat), count as nat),
            decreases self.cdll.hashmap.len() - i,
        {
            let ghost ns = found_names(hm, pat@, starts, i as nat);
            let name = &self.cdll.hashmap[i].0;
            assert(hm[i as int].0 == name@);
            let nl = to_lowercase(name.as_str());
            let hit = if starts {
                text_starts_with(nl.as_str(), pl.as_str())
            } else {
                text_contains(nl.as_str(), pl.as_str())
            };
            if hit {
                count = count + 1;
                if count > 1 {
                    put(&mut r, "\n");
                }
                let ct = usize_text(count);
                put(&mut r, ct.as_str());
                put(&mut r, ": ");
                put(&mut r, name.as_str());
                proof {
                    lemma_numbered_push(ns, name@, ns.len());
                }
                assert(r@ =~= numbered(ns.push(name@), count as nat));
            }
            i = i + 1;
        }
        if count == 0 {
            return string_of("(None found)");
        }
        r
    }

    /// `find|search starts_with|contains (partial cube_name)`: lists the
    /// names of the map that start with, or hold, the text (ignoring case).
    pub fn find_cmd(&self, args: &Vec<String>, usage: &str, out: &mut String) -> (r: CSResult<()>)
        requires
            self@.wf(),
            args@.len() >= 1,
        ensures
            ran(self@, old(out)@, self@, final(out)@, go_on(outcome(r)), cmd_find(self@.cdll, strings_view(args@), usage@)),
    {
        let ghost a = strings_view(args@);
        let ghost o = out@;
        if args.len() != 3 {
            assert(out@ =~= o + no_text());
            return Err(usage_error(usage));
        }
        assert(a[1] == args@[1]@ && a[2] == args@[2]@);
        if let Err(e) = check_valid_cube_name(args[2].as_str()) {
            assert(out@ =~= o + no_text());
            return Err(e);
        }
        let starts = str_eq(args[1].as_str(), "starts_with");
        if starts {
            put(out, "Finding cube names starting with '");
        } else if str_eq(args[1].as_str(), "contains") {
            put(out, "Finding cube names containing substring '");
        } else {
            assert(out@ =~= o + no_text());
            return Err(usage_error(usage));
        }
        put(out, args[2].as_str());
        put(out, "'\n");
        let t = self.found_lines(&args[2], starts);
        put(out, t.as_str());
        put(out, "\n");
        assert(out@ == o + cmd_find(self@.cdll, a, usage@).1);
        Ok(())
    }

    /// `usage`: how commands are written, then each usage once with its
    /// description, sorted.
    pub fn usage_cmd(&self, out: &mut String)
        ensures
            final(out)@ == old(out)@ + usage_listing(self@.commands),
    {
        let ghost cs = self@.commands;
        let ghost o = out@;
        put(out, "Format: <command arg1 arg2 ...>\n+ means more than 1 set of arguments can also be added\n? means that an argument is optional\nCommand may have more than 1 name delimited with |\n");
        let mut items: Vec<(String, usize)> = Vec::new();
        let mut i: usize = 0;
        assert(named_view(items@) =~= usage_items(cs, 0));
        while i < self.hm_command.len()
            invariant
                cs == self@.commands,
                i <= cs.len(),
                named_view(items@) == usage_items(cs, i as nat),
            decreases self.hm_command.len() - i,
        {
            assert(cs[i as int].1 == self.hm_command@[i as int].1@);
            let mut dup = false;
            let mut j: usize = 0;
            while j < i
                invariant_except_break
                    cs == self@.commands,
                    i < cs.len(),
                    j <= i,
                    cs[i as int].1 == self.hm_command@[i as int].1@,
                    !dup,
                    forall|k: int| 0 <= k < j ==> #[trigger] cs[k].1.usage != cs[i as int].1.usage,
                ensures
                    dup ==> exists|k: int| 0 <= k < i && #[trigger] cs[k].1.usage == cs[i as int].1.usage,
                    !dup ==> forall|k: int| 0 <= k < i ==> #[trigger] cs[k].1.usage != cs[i as int].1.usage,
                decreases i - j,
            {
                assert(cs[j as int].1 == self.hm_command@[j as int].1@);
                if str_eq(self.hm_command[j].1.usage.as_str(), self.hm_command[i].1.usage.as_str()) {
                    assert(cs[j as int].1.usage == cs[i as int].1.usage);
                    dup = true;
                    break;
                }
                j = j + 1;
            }
            if !dup {
                let mut t = self.hm_command[i].1.usage.clone();
                put(&mut t, "\n\t");
                put(&mut t, self.hm_command[i].1.description.as_str());
                let ghost i0 = named_view(items@);
                items.push((t, 0));
                assert(named_view(items@) =~= i0.push((t@, 0usize)));
            }
            assert(named_view(items@) =~= usage_items(cs, (i + 1) as nat));
            i = i + 1;
        }
        let sorted = sort_by_name(&items);
        let ghost sv = named_view(sorted@);
        let mut k: usize = 0;
        let ghost o1 = out@;
        while k < sorted.len()
            invariant
                sv == named_view(sorted@),
                k <= sorted@.len(),
                out@ == o1 + lines_of(sv, k as nat),
            decreases sorted.len() - k,
        {
            if k > 0 {
                put(out, "\n");
            }
            assert(sv[k as int].0 == sorted@[k as int].0@);
            put(out, sorted[k].0.as_str());
            assert(out@ =~= o1 + lines_of(sv, (k + 1) as nat));
            k = k + 1;
        }
        put(out, "\n");
        assert(out@ =~= o + usage_listing(cs));
    }

    /// `destroy_all|drop_all|remove_all`: asks before removing every cube.
    pub fn rem_all_cmd(&self) -> (r: CSResult<Pending>)
        ensures
            run_view(r) == Ok::<PendingView, ErrView>(PendingView::RemoveAll(ask("All cube data will be erased without saving."@))),
    {
        Ok(Pending::RemoveAll(ask_text("All cube data will be erased without saving.")))
    }

    /// Once the removal is confirmed: no cube is left, and nothing is
    /// unsaved.
    pub fn remove_all_confirmed(&mut self, out: &mut String)
        ensures
            (final(self)@, final(out)@) == ({
                let (w, t) = spec_remove_all(old(self)@);
                (w, old(out)@ + t)
            }),
            final(self)@.wf(),
    {
        self.cdll.remove_all_cubes();
        self.has_saved = true;
        put(out, "All cubes in the program have been removed.\n");
    }

    /// `save_to|write_to (file_name)`: the file to write and the question
    /// to ask first; `temp.sav` is refused.
    pub fn save_to_cmd(&self, args: &Vec<String>, usage: &str) -> (r: CSResult<Pending>)
        requires
            args@.len() >= 1,
        ensures
            ({
                let (w, t, e) = cmd_save_to(self@, strings_view(args@), usage@);
                run_view(r) == e
            }),
    {
        let ghost a = strings_view(args@);
        if args.len() != 2 {
            return Err(usage_error(usage));
        }
        assert(a[1] == args@[1]@);
        if str_eq(args[1].as_str(), "temp.sav") {
            return Err(
                CSError::InvalidArguments(
                    string_of(
                        "File name 'temp.sav' shouldn't be a file name because the file will be overwritten after this program exits.",
                    ),
                ),
            );
        }
        let mut m = string_of("Writing to this file name, \"");
        put(&mut m, args[1].as_str());
        put(&mut m, "\", will be overwritten.");
        let q = ask_text(m.as_str());
        Ok(Pending::SaveTo(args[1].clone(), q))
    }

    /// Once the file is written: nothing is unsaved.
    pub fn mark_saved(&mut self)
        ensures
            final(self)@ == (TuiView { saved: true, ..old(self)@ }),
    {
        self.has_saved = true;
    }

    /// The text to write to a save file: the save line of every cube,
    /// sorted by name.
    pub fn save_text(&self) -> (r: String)
        requires
            self@.wf(),
        ensures
            r@ == crate::show::save_file(self@.cdll),
    {
        self.cdll.save_text()
    }

    /// `load_from (file_name)`: the file to read, and the question to ask
    /// first when something is unsaved.
    pub fn load_from_cmd(&self, args: &Vec<String>, usage: &str) -> (r: CSResult<Pending>)
        requires
            args@.len() >= 1,
        ensures
            ({
                let (w, t, e) = cmd_load_from(self@, strings_view(args@), usage@);
                run_view(r) == e
            }),
    {
        let ghost a = strings_view(args@);
        if args.len() != 2 {
            return Err(usage_error(usage));
        }
        assert(a[1] == args@[1]@);
        let q = if self.has_saved {
            None
        } else {
            let mut m = string_of("All unsaved cube data in this program will be erased before loading this file ");
            put(&mut m, args[1].as_str());
            put(&mut m, ".");
            Some(ask_text(m.as_str()))
        };
        Ok(Pending::LoadFrom(args[1].clone(), q))
    }

    /// Loads the save text `file` read from the file: the graph is
    /// replaced by what the file holds; nothing is unsaved once it succeeds.
    pub fn load_from_text(&mut self, file: &str, out: &mut String) -> (r: CSResult<()>)
        requires
            old(self)@.wf(),
        ensures
            final(self)@.wf(),
            ({
                let (w, t, e) = spec_load_text(old(self)@, file@);
                final(self)@ == w && final(out)@ == old(out)@ + t && outcome(r) == e
            }),
    {
        let r = self.cdll.load_save_text(file, out);
        if r.is_ok() {
            self.has_saved = true;
        }
        r
    }

    /// `exit`: ends the program when nothing is unsaved, else asks first.
    pub fn exit_cmd(&mut self) -> (r: CSResult<Pending>)
        ensures
            ({
                let (w, t, e) = cmd_exit(old(self)@);
                final(self)@ == w && run_view(r) == e
            }),
    {
        if self.has_saved {
            self.done_program = true;
            return Ok(Pending::Nothing);
        }
        Ok(Pending::Exit(ask_text("There may be unsaved cube data not saved yet.")))
    }

    /// Once the exit is confirmed: the program is done.
    pub fn exit_confirmed(&mut self)
        ensures
            final(self)@ == (TuiView { done: true, ..old(self)@ }),
    {
        self.done_program = true;
    }

    /// A command name not in the table.
    pub fn not_found_cmd(&self, args: &Vec<String>) -> (r: CSResult<()>)
        requires
            args@.len() >= 1,
        ensures
            outcome(r) == Err::<(), ErrView>(ErrView::InvalidCommand(strings_view(args@)[0])),
    {
        assert(strings_view(args@)[0] == args@[0]@);
        Err(CSError::InvalidCommand(args[0].clone()))
    }
}


fn pend_flag(r: CSResult<bool>) -> (p: CSResult<Pending>)
    ensures
        run_view(p) == pending_of(flag_view(r)),
{
    match r {
        Ok(true) => Ok(Pending::Nothing),
        Ok(false) => Ok(Pending::Halt),
        Err(e) => Err(e),
    }
}

fn pend_unit(r: CSResult<()>) -> (p: CSResult<Pending>)
    ensures
        run_view(p) == pending_of(go_on(outcome(r))),
{
    match r {
        Ok(_) => Ok(Pending::Nothing),
        Err(e) => Err(e),
    }
}

impl TUI {
    /// Runs the command named by `args[0]` (looked up in the command table)
    /// on the arguments `args`, writing to `out`; gives the error, or what is
    /// left to do.
    pub fn run_command(&mut self, args: &Vec<String>, out: &mut String) -> (r: CSResult<Pending>)
        requires
            old(self)@.wf(),
            args@.len() >= 1,
        ensures
            final(self)@.wf(),
            ({
                let (w, t, e) = spec_run(old(self)@, strings_view(args@));
                final(self)@ == w && final(out)@ == old(out)@ + t && run_view(r) == e
            }),
    {
        let ghost a = strings_view(args@);
        let ghost v = self@;
        let ghost o = out@;
        proof {
            lemma_find_key(v.commands, a[0]);
        }
        assert(a[0] == args@[0]@);
        let i = match find_command(&self.hm_command, &args[0]) {
            None => {
                assert(out@ =~= o + no_text());
                return match self.not_found_cmd(args) {
                    Ok(_) => Ok(Pending::Nothing),
                    Err(e) => Err(e),
                };
            },
            Some(i) => i,
        };
        let cmd = self.hm_command[i].1.command;
        let usage = self.hm_command[i].1.usage.clone();
        assert(value_of(v.commands, a[0]) == self.hm_command@[i as int].1@);
        let u = usage.as_str();
        match cmd {
            Command::Add => pend_unit(self.add_cmd(args, u, out)),
            Command::Remove => pend_unit(self.rm_cmd(args, u, out)),
            Command::Read => pend_flag(self.read_cmd(args, u, out)),
            Command::UnlinkAll => pend_unit(self.unlink_all_cmd(args, u, out)),
            Command::Rename => pend_unit(self.rename_cmd(args, u, out)),
            Command::ReadAll => {
                self.cdll.get_info_cube_paths(out);
                Ok(Pending::Nothing)
            },
            Command::Link => pend_unit(self.link_cmd(args, u, out)),
            Command::Merge => pend_unit(self.merge_cmd(args, u, out)),
            Command::Unlink => pend_unit(self.unlink_cmd(args, u, out)),
            Command::ChangeTier => pend_unit(self.change_tier_cmd(args, u, out)),
            Command::GetFusions => pend_unit(self.get_fusions_cmd(args, u, out)),
            Command::BuildTree => pend_flag(self.build_tree_cmd(args, u, out)),
            Command::Find => pend_unit(self.find_cmd(args, u, out)),
            Command::Todo => {
                self.cdll.print_todo(out);
                Ok(Pending::Nothing)
            },
            Command::RemoveAll => {
                assert(out@ =~= o + no_text());
                self.rem_all_cmd()
            },
            Command::SaveTo => {
                assert(out@ =~= o + no_text());
                self.save_to_cmd(args, u)
            },
            Command::LoadFrom => {
                assert(out@ =~= o + no_text());
                self.load_from_cmd(args, u)
            },
            Command::Exit => {
                assert(out@ =~= o + no_text());
                self.exit_cmd()
            },
            Command::Usage => {
                self.usage_cmd(out);
                Ok(Pending::Nothing)
            },
        }
    }

    /// Runs a line typed at the prompt: its words as a command, then sets
    /// the save flag by the command's name. `None` for a line with no words.
    pub fn run_line(&mut self, line: &str, out: &mut String) -> (r: Option<CSResult<Pending>>)
        requires
            old(self)@.wf(),
        ensures
            final(self)@.wf(),
            ({
                let (w, t, e) = spec_line(old(self)@, line@);
                final(self)@ == w && final(out)@ == old(out)@ + t && match r {
                    Some(x) => e == Some(run_view(x)),
                    None => e is None,
                }
            }),
    {
        let cs = chars_of(line);
        let ws = tokens_of(&cs);
        let args = word_strings(&ws);
        if args.len() == 0 {
            assert(out@ =~= old(out)@ + no_text());
            return None;
        }
        let r = self.run_command(&args, out);
        assert(strings_view(args@)[0] == args@[0]@);
        self.set_save_flag(args[0].as_str());
        Some(r)
    }
}


/// The first `i` command names, each with a placeholder value (for sorting).
pub open spec fn command_names(cs: Seq<(Seq<char>, EntryView)>, i: nat) -> Seq<(Seq<char>, usize)>
    decreases i,
{
    if i == 0 || i > cs.len() {
        Seq::empty()
    } else {
        command_names(cs, (i - 1) as nat).push((cs[i - 1].0, 0usize))
    }
}

/// The first `i` command names that hold `value` (with placeholder values).
pub open spec fn commands_holding(cs: Seq<(Seq<char>, EntryView)>, value: Seq<char>, i: nat) -> Seq<(Seq<char>, usize)>
    decreases i,
{
    if i == 0 || i > cs.len() {
        Seq::empty()
    } else {
        let rest = commands_holding(cs, value, (i - 1) as nat);
        if has_substring(cs[i - 1].0, value) {
            rest.push((cs[i - 1].0, 0usize))
        } else {
            rest
        }
    }
}

/// The first `i` command names whose lower case holds the lower case of
/// `value`, each followed by `. `.
pub open spec fn hints_text(cs: Seq<(Seq<char>, EntryView)>, value: Seq<char>, i: nat) -> Seq<char>
    decreases i,
{
    if i == 0 || i > cs.len() {
        Seq::empty()
    } else {
        hints_text(cs, value, (i - 1) as nat) + if has_substring(lowercase(cs[i - 1].0), lowercase(value)) {
            cs[i - 1].0 + ". "@
        } else {
            no_text()
        }
    }
}

impl TUI {
    /// The command names, sorted (as a list of the commands shows them).
    pub fn sorted_command_names(&self) -> (r: Vec<String>)
        ensures
            strings_view(r@) == names_of(isort(command_names(self@.commands, self@.commands.len()))),
    {
        let ghost cs = self@.commands;
        let mut ns: Vec<(String, usize)> = Vec::new();
        let mut i: usize = 0;
        assert(named_view(ns@) =~= command_names(cs, 0));
        while i < self.hm_command.len()
            invariant
                cs == self@.commands,
                i <= cs.len(),
                named_view(ns@) == command_names(cs, i as nat),
            decreases self.hm_command.len() - i,
        {
            assert(cs[i as int].0 == self.hm_command@[i as int].0@);
            let ghost n0 = named_view(ns@);
            ns.push((self.hm_command[i].0.clone(), 0));
            assert(named_view(ns@) =~= n0.push((cs[i as int].0, 0usize)));
            i = i + 1;
        }
        let sorted = sort_by_name(&ns);
        names_only(&sorted)
    }

    /// The command names whose lower case holds the lower case of `value`,
    /// each followed by `. ` (the hint for a command name not in the table).
    pub fn command_hints(&self, value: &str) -> (r: String)
        ensures
            r@ == hints_text(self@.commands, value@, self@.commands.len()),
    {
        let ghost cs = self@.commands;
        let vl = to_lowercase(value);
        let mut r = String::new();
        let mut i: usize = 0;
        while i < self.hm_command.len()
            invariant
                cs == self@.commands,
                vl@ == lowercase(value@),
                i <= cs.len(),
                r@ == hints_text(cs, value@, i as nat),
            decreases self.hm_command.len() - i,
        {
            assert(cs[i as int].0 == self.hm_command@[i as int].0@);
            let nl = to_lowercase(self.hm_command[i].0.as_str());
            if text_contains(nl.as_str(), vl.as_str()) {
                put(&mut r, self.hm_command[i].0.as_str());
                put(&mut r, ". ");
            }
            assert(r@ =~= hints_text(cs, value@, (i + 1) as nat));
            i = i + 1;
        }
        r
    }

    /// The first, in sorted order, of the command names that hold `value`
    /// (the completion of a partly typed command).
    pub fn first_command_containing(&self, value: &str) -> (r: Option<String>)
        ensures
            ({
                let hs = isort(commands_holding(self@.commands, value@, self@.commands.len()));
                match r {
                    Some(s) => hs.len() > 0 && s@ == hs[0].0,
                    None => hs.len() == 0,
                }
            }),
    {
        let ghost cs = self@.commands;
        let mut ns: Vec<(String, usize)> = Vec::new();
        let mut i: usize = 0;
        assert(named_view(ns@) =~= commands_holding(cs, value@, 0));
        while i < self.hm_command.len()
            invariant
                cs == self@.commands,
                i <= cs.len(),
                named_view(ns@) == commands_holding(cs, value@, i as nat),
            decreases self.hm_command.len() - i,
        {
            assert(cs[i as int].0 == self.hm_command@[i as int].0@);
            if text_contains(self.hm_command[i].0.as_str(), value) {
                let ghost n0 = named_view(ns@);
                ns.push((self.hm_command[i].0.clone(), 0));
                assert(named_view(ns@) =~= n0.push((cs[i as int].0, 0usize)));
            }
            i = i + 1;
        }
        let sorted = sort_by_name(&ns);
        if sorted.len() == 0 {
            return None;
        }
        assert(named_view(sorted@)[0].0 == sorted@[0].0@);
        Some(sorted[0].0.clone())
    }
}

/// The names of sorted entries, in order.
fn names_only(es: &Vec<(String, usize)>) -> (r: Vec<String>)
    ensures
        strings_view(r@) == names_of(named_view(es@)),
{
    let mut r: Vec<String> = Vec::new();
    let mut i: usize = 0;
    while i < es.len()
        invariant
            i <= es@.len(),
            strings_view(r@) == names_of(named_view(es@)).subrange(0, i as int),
        decreases es.len() - i,
    {
        assert(named_view(es@)[i as int].0 == es@[i as int].0@);
        let nm = es[i].0.clone();
        let ghost r0 = r@;
        r.push(nm);
        assert(strings_view(r@) =~= strings_view(r0).push(nm@));
        assert(strings_view(r@) =~= names_of(named_view(es@)).subrange(0, i + 1));
        i = i + 1;
    }
    assert(names_of(named_view(es@)).subrange(0, es@.len() as int) =~= names_of(named_view(es@)));
    r
}

} // verus!
