//! What a command line asks for, and what follows a scan that it asked for.

use vstd::prelude::*;

use crate::filetypes::{
    default_dir_names, default_excluded_dir_names, valid_types, valid_types_text, OptionsV, ScanOptions,
};
use crate::groups::{
    folders_of_size, groups_of_size, keep_folders_of_size, keep_groups_of_size, DuplicateGroup, FolderGroup,
};
use crate::order::sorted_texts;
use crate::paths::{FilePath, PathV};
use crate::scan::ScanResult;
use crate::text::{
    chars_of, concat2, concat3, copy_texts, count_text, debug_of, debug_text, decimal, joined, list_contains,
    same_text, text_of,
};

verus! {

/// The arguments of a command line.
#[derive(Debug)]
pub struct Arguments {
    pub directories: Vec<String>,
    pub min_size: u64,
    pub quiet: bool,
    pub threads: usize,
    pub large_threshold: u64,
    pub exclude: Vec<String>,
    pub no_default_excludes: bool,
    pub file_types: Vec<String>,
    pub delete: bool,
    pub move_to: Option<String>,
    pub yes: bool,
    pub dry_run: bool,
    /// `LAST`, or a place in the history.
    pub resume: Option<String>,
    pub history: bool,
    pub show: Option<usize>,
    pub export_history: Option<String>,
    pub import_history: Option<String>,
}

pub struct ArgumentsV {
    pub directories: Seq<Seq<char>>,
    pub min_size: u64,
    pub quiet: bool,
    pub threads: usize,
    pub large_threshold: u64,
    pub exclude: Seq<Seq<char>>,
    pub no_default_excludes: bool,
    pub file_types: Seq<Seq<char>>,
    pub delete: bool,
    pub move_to: Option<Seq<char>>,
    pub yes: bool,
    pub dry_run: bool,
    pub resume: Option<Seq<char>>,
    pub history: bool,
    pub show: Option<usize>,
    pub export_history: Option<Seq<char>>,
    pub import_history: Option<Seq<char>>,
}

impl View for Arguments {
    type V = ArgumentsV;

    open spec fn view(&self) -> ArgumentsV {
        ArgumentsV {
            directories: self.directories.deep_view(),
            min_size: self.min_size,
            quiet: self.quiet,
            threads: self.threads,
            large_threshold: self.large_threshold,
            exclude: self.exclude.deep_view(),
            no_default_excludes: self.no_default_excludes,
            file_types: self.file_types.deep_view(),
            delete: self.delete,
            move_to: self.move_to.deep_view(),
            yes: self.yes,
            dry_run: self.dry_run,
            resume: self.resume.deep_view(),
            history: self.history,
            show: self.show,
            export_history: self.export_history.deep_view(),
            import_history: self.import_history.deep_view(),
        }
    }
}

/// What a command line asks for.
#[derive(Debug)]
pub enum Command {
    /// Nothing that can be done: this is said, and this is the exit code.
    Refuse(String, i32),
    History,
    Export(String),
    Import(String),
    Show(usize),
    /// Resume the run of this request.
    Resume(String),
    /// Scan these directories.
    Scan(Vec<String>),
}

pub enum CommandV {
    Refuse(Seq<char>, i32),
    History,
    Export(Seq<char>),
    Import(Seq<char>),
    Show(usize),
    Resume(Seq<char>),
    Scan(Seq<Seq<char>>),
}

impl View for Command {
    type V = CommandV;

    open spec fn view(&self) -> CommandV {
        match self {
            Command::Refuse(s, code) => CommandV::Refuse(s@, *code),
            Command::History => CommandV::History,
            Command::Export(p) => CommandV::Export(p@),
            Command::Import(p) => CommandV::Import(p@),
            Command::Show(n) => CommandV::Show(*n),
            Command::Resume(a) => CommandV::Resume(a@),
            Command::Scan(d) => CommandV::Scan(d.deep_view()),
        }
    }
}

/// The first of a list of file types that is unknown.
pub open spec fn first_unknown(types: Seq<Seq<char>>) -> Option<Seq<char>>
    decreases types.len(),
{
    if types.len() == 0 {
        None
    } else if !valid_types().contains(types[0]) {
        Some(types[0])
    } else {
        first_unknown(types.skip(1))
    }
}

/// What is said of an unknown file type that shows like this.
pub open spec fn bad_type_text(shown: Seq<char>) -> Seq<char> {
    "Error: invalid --type value "@ + shown + " -- valid categories: "@ + joined(sorted_texts(valid_types()), ", "@)
}

/// Refuses an unknown file type that shows like this.
pub fn refuse_type(shown: &str) -> (r: Command)
    ensures
        r@ == CommandV::Refuse(bad_type_text(shown@), 2),
{
    let mut s = concat3("Error: invalid --type value ", shown, " -- valid categories: ");
    s.append(valid_types_text().as_str());
    Command::Refuse(s, 2)
}

/// What a command line asks for: the first of these that applies.
pub open spec fn command_of(a: ArgumentsV) -> CommandV {
    if a.delete && a.move_to is Some {
        CommandV::Refuse("Error: --delete and --move-to are mutually exclusive"@, 1)
    } else if a.history {
        CommandV::History
    } else if a.export_history is Some {
        CommandV::Export(a.export_history.unwrap())
    } else if a.import_history is Some {
        CommandV::Import(a.import_history.unwrap())
    } else if a.show is Some {
        CommandV::Show(a.show.unwrap())
    } else if first_unknown(a.file_types) is Some {
        CommandV::Refuse(bad_type_text(debug_text(first_unknown(a.file_types).unwrap())), 2)
    } else if a.resume is Some {
        if a.directories.len() > 0 {
            CommandV::Refuse("Error: --resume picks up a stopped scan and doesn't take directories"@, 1)
        } else {
            CommandV::Resume(a.resume.unwrap())
        }
    } else if a.directories.len() == 0 {
        CommandV::Refuse("Error: the following arguments are required: directories"@, 2)
    } else {
        CommandV::Scan(a.directories)
    }
}

fn find_unknown(types: &Vec<String>) -> (r: Option<String>)
    ensures
        r.deep_view() == first_unknown(types.deep_view()),
{
    let names = crate::filetypes::valid_file_types();
    let valid = crate::filetypes::owned_names(&names);
    let ghost all = types.deep_view();
    let mut i: usize = 0;
    assert(all.skip(0) =~= all);
    while i < types.len()
        invariant
            i <= types@.len(),
            all == types.deep_view(),
            valid.deep_view() == valid_types(),
            first_unknown(all) == first_unknown(all.skip(i as int)),
        decreases types@.len() - i,
    {
        let ghost rest = all.skip(i as int);
        assert(rest[0] == types@[i as int]@);
        if !list_contains(&valid, types[i].as_str()) {
            return Some(types[i].clone());
        }
        assert(rest.skip(1) =~= all.skip(i + 1));
        i = i + 1;
    }
    None
}

pub fn choose_command(args: &Arguments) -> (r: Command)
    ensures
        r@ == command_of(args@),
{
    if args.delete && args.move_to.is_some() {
        return Command::Refuse("Error: --delete and --move-to are mutually exclusive".to_string(), 1);
    }
    if args.history {
        return Command::History;
    }
    match &args.export_history {
        Some(p) => {
            return Command::Export(p.clone());
        },
        None => {},
    }
    match &args.import_history {
        Some(p) => {
            return Command::Import(p.clone());
        },
        None => {},
    }
    match args.show {
        Some(n) => {
            return Command::Show(n);
        },
        None => {},
    }
    match find_unknown(&args.file_types) {
        Some(t) => {
            return refuse_type(debug_of(t.as_str()).as_str());
        },
        None => {},
    }
    match &args.resume {
        Some(request) => {
            if args.directories.len() > 0 {
                return Command::Refuse(
                    "Error: --resume picks up a stopped scan and doesn't take directories".to_string(),
                    1,
                );
            }
            return Command::Resume(request.clone());
        },
        None => {},
    }
    if args.directories.len() == 0 {
        return Command::Refuse("Error: the following arguments are required: directories".to_string(), 2);
    }
    Command::Scan(copy_texts(&args.directories))
}

/// How a command line wants the scan to go about its work.
pub open spec fn options_of(a: ArgumentsV) -> OptionsV {
    OptionsV {
        show_progress: !a.quiet,
        workers: a.threads,
        large_file_threshold: a.large_threshold,
        exclude_dirs: if a.no_default_excludes {
            a.exclude
        } else {
            default_dir_names() + a.exclude
        },
        exclude_temp_files: !a.no_default_excludes,
        file_types: if a.file_types.len() == 0 {
            None
        } else {
            Some(a.file_types)
        },
    }
}

pub fn scan_options(args: &Arguments) -> (r: ScanOptions)
    ensures
        r@ == options_of(args@),
{
    let exclude_dirs = if args.no_default_excludes {
        copy_texts(&args.exclude)
    } else {
        let mut names = default_excluded_dir_names();
        let mut more = copy_texts(&args.exclude);
        names.append(&mut more);
        assert(names.deep_view() =~= default_dir_names() + args.exclude.deep_view());
        names
    };
    let file_types = if args.file_types.len() == 0 {
        None
    } else {
        Some(copy_texts(&args.file_types))
    };
    ScanOptions {
        show_progress: !args.quiet,
        workers: args.threads,
        large_file_threshold: args.large_threshold,
        exclude_dirs,
        exclude_temp_files: !args.no_default_excludes,
        file_types,
    }
}

// ----------------------------------------------------------------- directories

/// What is said of a path that is no directory.
pub open spec fn not_directory_text(path: PathV, resuming: bool) -> Seq<char> {
    if resuming {
        "Error: cannot resume -- "@ + path.text + " is no longer a directory"@
    } else {
        "Error: "@ + path.text + " is not a directory"@
    }
}

/// Decides about one directory to scan: what is said if it is none.
pub fn check_directory(path: &FilePath, is_dir: bool, resuming: bool) -> (r: Result<(), String>)
    ensures
        match r {
            Ok(_) => is_dir,
            Err(s) => !is_dir && s@ == not_directory_text(path@, resuming),
        },
{
    if is_dir {
        return Ok(());
    }
    if resuming {
        Err(concat3("Error: cannot resume -- ", path.text.as_str(), " is no longer a directory"))
    } else {
        Err(concat3("Error: ", path.text.as_str(), " is not a directory"))
    }
}

/// What a path that may begin with a tilde stands for.
#[derive(Debug)]
pub enum TildeForm {
    /// The path as it is.
    Plain,
    /// The home directory.
    Home,
    /// This path in the home directory.
    InHome(String),
}

/// Takes a path apart that may begin with a tilde.
pub fn expand_tilde(raw: &str) -> (r: TildeForm)
    ensures
        match r {
            TildeForm::Plain => raw@ != "~"@ && !("~/"@.is_prefix_of(raw@)) && !("~\\"@.is_prefix_of(raw@)),
            TildeForm::Home => raw@ == "~"@,
            TildeForm::InHome(rest) => ("~/"@.is_prefix_of(raw@) || "~\\"@.is_prefix_of(raw@)) && rest@ == raw@.skip(2),
        },
{
    proof {
        reveal_strlit("~");
        reveal_strlit("~/");
        reveal_strlit("~\\");
    }
    if same_text(raw, "~") {
        return TildeForm::Home;
    }
    let chars = chars_of(raw);
    if chars.len() >= 2 && chars[0] == '~' && (chars[1] == '/' || chars[1] == '\\') {
        let rest = text_of(&chars, 2, chars.len());
        assert(rest@ =~= raw@.skip(2));
        if chars[1] == '/' {
            assert("~/"@ =~= raw@.subrange(0, 2));
        } else {
            assert("~\\"@ =~= raw@.subrange(0, 2));
        }
        return TildeForm::InHome(rest);
    }
    proof {
        if "~/"@.is_prefix_of(raw@) {
            assert("~/"@[0] == raw@[0] && "~/"@[1] == raw@[1]);
        }
        if "~\\"@.is_prefix_of(raw@) {
            assert("~\\"@[0] == raw@[0] && "~\\"@[1] == raw@[1]);
        }
    }
    TildeForm::Plain
}

/// The directory in which the store lies: the home directory, by the first of
/// its names that is known, else the current one.
pub fn store_home(home: Option<String>, user_profile: Option<String>) -> (r: String)
    ensures
        r@ == (match home {
            Some(h) => h@,
            None => match user_profile {
                Some(p) => p@,
                None => "."@,
            },
        }),
{
    match home {
        Some(h) => h,
        None => match user_profile {
            Some(p) => p,
            None => ".".to_string(),
        },
    }
}

// -------------------------------------------------------------------- messages

/// What is said after an export.
pub fn exported_text(count: usize, path: &FilePath) -> (r: String)
    ensures
        r@ == "Exported "@ + decimal(count as nat) + " run(s) to "@ + path@.text,
{
    let mut s = concat3("Exported ", count_text(count).as_str(), " run(s) to ");
    s.append(path.text.as_str());
    s
}

/// What is said after an import, with the exit code: how many runs are new, or
/// what went wrong.
pub fn imported_text(path: &FilePath, is_file: bool, outcome: Result<usize, String>) -> (r: (String, i32))
    ensures
        (r.0@, r.1) == (if !is_file {
            ("Error: "@ + path@.text + " is not a file"@, 1i32)
        } else {
            match outcome {
                Ok(n) => ("Imported "@ + decimal(n as nat) + " new run(s) from "@ + path@.text, 0i32),
                Err(e) => ("Error importing history: "@ + e@, 1i32),
            }
        }),
{
    if !is_file {
        return (concat3("Error: ", path.text.as_str(), " is not a file"), 1);
    }
    match outcome {
        Ok(n) => {
            let mut s = concat3("Imported ", count_text(n).as_str(), " new run(s) from ");
            s.append(path.text.as_str());
            (s, 0)
        },
        Err(e) => (concat2("Error importing history: ", e.as_str()), 1),
    }
}

/// What an interrupt does: the first asks the scan to stop, a further one ends
/// the program with this exit code.
pub fn interrupt(already: bool) -> (r: (String, Option<i32>))
    ensures
        (r.0@, r.1) == (if already {
            ("\nForce quitting."@, Some(130i32))
        } else {
            ("\nCancelling... (press Ctrl+C again to force quit)"@, None)
        }),
{
    if already {
        ("\nForce quitting.".to_string(), Some(130))
    } else {
        ("\nCancelling... (press Ctrl+C again to force quit)".to_string(), None)
    }
}

/// What is said when a snapshot cannot be used.
pub fn changed_root_warning() -> (r: String)
    ensures
        r@
            == "warning: ignoring saved progress -- a directory's identity has changed since it was last checkpointed (e.g. a different drive now mounted at the same path); starting a fresh scan instead of risking wrong results."@,
{
    "warning: ignoring saved progress -- a directory's identity has changed since it was last checkpointed (e.g. a different drive now mounted at the same path); starting a fresh scan instead of risking wrong results.".to_string()
}

// ------------------------------------------------------------------ after a scan

/// What follows a scan.
#[derive(Debug)]
pub struct Aftermath {
    /// Said of results that were not scanned anew.
    pub reuse_note: Option<String>,
    /// The groups to report and to act on.
    pub groups: Vec<DuplicateGroup>,
    /// The folder groups to report and to act on.
    pub folder_groups: Vec<FolderGroup>,
    /// Whether there is progress to save.
    pub save_progress: bool,
    /// Said of a scan that can be resumed.
    pub resume_hint: Option<String>,
    pub delete: bool,
    pub move_to: Option<String>,
}

/// Decides what follows a scan. Small files and folders are left out of the
/// report and of what is acted on.
pub fn after_scan(args: &Arguments, result: &ScanResult) -> (r: Aftermath)
    ensures
        r.groups.deep_view() == groups_of_size(result@.groups, args@.min_size),
        r.folder_groups.deep_view() == folders_of_size(result@.folder_groups, args@.min_size),
        r.save_progress == (result@.cancelled && result@.resume_state is Some),
        match r.reuse_note {
            Some(s) => result@.reused_run_id is Some && !args@.quiet && s@
                == "Nothing changed since the last scan of these directories -- reused those results."@,
            None => result@.reused_run_id is None || args@.quiet,
        },
        match r.resume_hint {
            Some(s) => result@.cancelled && result@.resume_state is Some && s@
                == "\nRun 'file-sorter --resume' to continue this scan where it left off."@,
            None => !(result@.cancelled && result@.resume_state is Some),
        },
        ({
            let any = groups_of_size(result@.groups, args@.min_size).len() > 0 || folders_of_size(
                result@.folder_groups,
                args@.min_size,
            ).len() > 0;
            &&& r.delete == (args@.delete && any)
            &&& r.move_to.deep_view() == (if any {
                args@.move_to
            } else {
                None
            })
        }),
{
    let groups = keep_groups_of_size(&result.groups, args.min_size);
    let folder_groups = keep_folders_of_size(&result.folder_groups, args.min_size);
    let open: bool = result.cancelled && result.resume_state.is_some();
    let any: bool = groups.len() > 0 || folder_groups.len() > 0;
    proof {
        assert(groups.deep_view().len() == groups@.len());
        assert(folder_groups.deep_view().len() == folder_groups@.len());
    }
    let reuse_note = if result.reused_run_id.is_some() && !args.quiet {
        Some("Nothing changed since the last scan of these directories -- reused those results.".to_string())
    } else {
        None
    };
    let resume_hint = if open {
        Some("\nRun 'file-sorter --resume' to continue this scan where it left off.".to_string())
    } else {
        None
    };
    let move_to = if any {
        match &args.move_to {
            Some(d) => Some(d.clone()),
            None => None,
        }
    } else {
        None
    };
    Aftermath {
        reuse_note,
        groups,
        folder_groups,
        save_progress: open,
        resume_hint,
        delete: args.delete && any,
        move_to,
    }
}

/// A command line that asks for a scan never both deletes and moves.
pub proof fn law_delete_or_move(a: ArgumentsV)
    requires
        command_of(a) is Scan || command_of(a) is Resume,
    ensures
        !(a.delete && a.move_to is Some),
{
}

} // verus!
