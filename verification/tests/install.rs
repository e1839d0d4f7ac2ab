use std::collections::HashMap;
use std::collections::HashSet;

use install::install::{
    check_invocation, check_target_directory, choose_layout, may_copy_onto, mode_to_apply,
    plan_command, resolve_component, target_path, Command, DirectoryInstall, EntryAction,
    Invocation, Layout, FAILURE_STATUS,
};
use install::options::parse_command_line;
use install::paths::{path_components, push_path};

static EXE: &'static str = "target/install";

/// A file system held in memory: files with their contents, directories,
/// mode bits and symbolic links, all keyed by absolute path.
struct MemFs {
    cwd: String,
    files: HashMap<String, String>,
    dirs: HashSet<String>,
    modes: HashMap<String, u32>,
    links: HashMap<String, String>,
}

/// The status of a run that panics.
const PANICKED: i32 = 101;

impl MemFs {
    fn new() -> MemFs {
        let mut fs = MemFs {
            cwd: "/work".to_string(),
            files: HashMap::new(),
            dirs: HashSet::new(),
            modes: HashMap::new(),
            links: HashMap::new(),
        };
        for d in ["/", "/work", "/work/tests", "/work/tests/source", "/work/tests/dest"] {
            fs.dirs.insert(d.to_string());
        }
        fs.write("tests/original", "Interesting content.");
        fs.write("tests/source/a", "A content.");
        fs.write("tests/source/b", "B content.");
        fs
    }

    fn key(&self, path: &str) -> String {
        let abs = push_path(&self.cwd, path);
        let comps = path_components(&abs);
        let mut key = String::from("/");
        key.push_str(&comps[1..].join("/"));
        key
    }

    fn write(&mut self, path: &str, contents: &str) {
        let k = self.key(path);
        self.files.insert(k, contents.to_string());
    }

    fn read(&self, path: &str) -> Option<String> {
        self.files.get(&self.key(path)).cloned()
    }

    fn mode(&self, path: &str) -> Option<u32> {
        self.modes.get(&self.key(path)).cloned()
    }

    fn set_mode(&mut self, path: &str, mode: Option<u32>) {
        if let Some(bits) = mode {
            let k = self.key(path);
            self.modes.insert(k, bits);
        }
    }

    fn is_present(&self, path: &str) -> bool {
        let k = self.key(path);
        self.files.contains_key(&k) || self.dirs.contains(&k)
    }

    fn is_dir(&self, path: &str) -> bool {
        self.dirs.contains(&self.key(path))
    }

    fn read_link(&self, path: &str) -> Option<String> {
        self.links.get(&self.key(path)).cloned()
    }

    /// Copies a file; a directory in the way fails the copy.
    fn copy(&mut self, from: &str, to: &str) -> bool {
        if self.is_dir(to) {
            return false;
        }
        match self.read(from) {
            Some(c) => {
                self.write(to, &c);
                true
            }
            None => false,
        }
    }

    fn create_dir_all(&mut self, path: &str) {
        let k = self.key(path);
        let comps = path_components(&k);
        let mut at = String::from("/");
        for c in &comps[1..] {
            at = push_path(&at, c);
            self.dirs.insert(at.clone());
        }
    }

    fn cleanup(&mut self, path: &str) {
        let k = self.key(path);
        self.files.remove(&k);
    }

    fn resolved(&self, path: &str) -> Option<String> {
        let mut resolved = self.cwd.clone();
        for component in path_components(path) {
            let probe = push_path(&resolved, &component);
            let link = self.read_link(&probe);
            resolved = resolve_component(&resolved, &component, link.as_deref())?;
        }
        Some(resolved)
    }
}

fn file_to_file(fs: &mut MemFs, source: &str, dest: &str, mode: Option<u32>) -> i32 {
    let (real_source, real_dest) = match (fs.resolved(source), fs.resolved(dest)) {
        (Some(s), Some(d)) => (s, d),
        _ => return PANICKED,
    };
    if !may_copy_onto(&real_source, &real_dest) || !fs.copy(source, dest) {
        return PANICKED;
    }
    fs.set_mode(dest, mode);
    0
}

fn files_to_directory(fs: &mut MemFs, sources: &[String], dest: &str, mode: Option<u32>) -> i32 {
    let dest_is_dir = if fs.is_present(dest) { Some(fs.is_dir(dest)) } else { None };
    if check_target_directory(dest_is_dir).is_err() {
        return FAILURE_STATUS;
    }
    let mut run = DirectoryInstall::new();
    for source in sources {
        let source_is_dir = fs.is_dir(source);
        let mut target = String::new();
        let mut target_is_dir = false;
        if !source_is_dir {
            target = match target_path(dest, source) {
                Some(t) => t,
                None => return PANICKED,
            };
            target_is_dir = fs.is_dir(&target);
        }
        let (mut real_target, mut real_source) = (String::new(), String::new());
        if !source_is_dir && !target_is_dir {
            match (fs.resolved(&target), fs.resolved(source)) {
                (Some(t), Some(s)) => {
                    real_target = t;
                    real_source = s;
                }
                _ => return PANICKED,
            }
        }
        let action = run.next_action(source_is_dir, target_is_dir, &real_target, &real_source);
        if action == EntryAction::Copy {
            if !fs.copy(source, &target) {
                return PANICKED;
            }
            fs.set_mode(&target, mode);
        }
    }
    0
}

fn install(fs: &mut MemFs, inv: &Invocation) -> i32 {
    let present: Vec<bool> = inv.sources.iter().map(|s| fs.is_present(s)).collect();
    let mode = match check_invocation(inv, &present) {
        Ok(m) => m,
        Err(_) => return FAILURE_STATUS,
    };
    let dest_is_dir = fs.is_dir(&inv.dest);
    match choose_layout(inv, dest_is_dir) {
        Layout::IntoDirectory => files_to_directory(fs, &inv.sources, &inv.dest, mode),
        Layout::OntoFile => file_to_file(fs, &inv.sources[0], &inv.dest, mode),
    }
}

/// Runs the command line `args` against `fs`, as the program's `uumain`
/// does; the outcome is the status it returns, `FAILURE_STATUS` where it
/// stops on a failed check, and `PANICKED` where it panics.
fn exit_code(fs: &mut MemFs, args: &[&str]) -> Result<i32, String> {
    if args.is_empty() {
        return Err("no program name".to_string());
    }
    let args: Vec<String> = args.iter().map(|a| a.to_string()).collect();
    let parsed = match parse_command_line(&args) {
        Ok(p) => p,
        Err(_) => return Ok(PANICKED),
    };
    Ok(match plan_command(parsed) {
        Command::Help | Command::Version => 0,
        Command::Usage(_) => FAILURE_STATUS,
        Command::MakeDirectories { directories, mode } => match mode_to_apply(mode) {
            Ok(m) => {
                for d in &directories {
                    fs.create_dir_all(d);
                    fs.set_mode(d, m);
                }
                0
            }
            Err(_) => FAILURE_STATUS,
        },
        Command::Install(inv) => install(fs, &inv),
    })
}

/// Whether the run ends successfully.
fn run(fs: &mut MemFs, args: &[&str]) -> Result<bool, String> {
    exit_code(fs, args).map(|code| code == 0)
}

#[test]
fn test_install_file_to_file() {
    let mut fs = MemFs::new();
    let status = match run(&mut fs, &[EXE, "tests/original", "tests/copy"]) {
        Ok(status) => status,
        Err(e) => panic!("failed to execute process: {}", e),
    };

    assert_eq!(status, true);

    let contents = fs.read("tests/copy").unwrap();
    assert_eq!(contents.as_str(), "Interesting content.");

    fs.cleanup("tests/copy");
}

#[test]
fn test_install_files_to_directory() {
    let mut fs = MemFs::new();
    let status = match run(
        &mut fs,
        &[EXE, "tests/source/a", "tests/original", "tests/source/b", "tests/dest"],
    ) {
        Ok(status) => status,
        Err(e) => panic!("failed to execute process: {}", e),
    };

    assert_eq!(status, true);

    let mut contents = fs.read("tests/dest/a").unwrap();
    assert_eq!(contents.as_str(), "A content.");

    contents = fs.read("tests/dest/b").unwrap();
    assert_eq!(contents.as_str(), "B content.");

    contents = fs.read("tests/dest/original").unwrap();
    assert_eq!(contents.as_str(), "Interesting content.");

    fs.cleanup("tests/dest/a");
    fs.cleanup("tests/dest/b");
    fs.cleanup("tests/dest/original");
}

#[test]
fn test_install_target_flag() {
    let mut fs = MemFs::new();
    let status = match run(
        &mut fs,
        &[EXE, "tests/source/a", "-t", "tests/dest", "tests/original", "tests/source/b"],
    ) {
        Ok(status) => status,
        Err(e) => panic!("failed to execute process: {}", e),
    };

    assert_eq!(status, true);

    let mut contents = fs.read("tests/dest/a").unwrap();
    assert_eq!(contents.as_str(), "A content.");

    contents = fs.read("tests/dest/b").unwrap();
    assert_eq!(contents.as_str(), "B content.");

    contents = fs.read("tests/dest/original").unwrap();
    assert_eq!(contents.as_str(), "Interesting content.");

    fs.cleanup("tests/dest/a");
    fs.cleanup("tests/dest/b");
    fs.cleanup("tests/dest/original");
}

#[test]
fn test_missing_source_is_reported_before_copying() {
    let mut fs = MemFs::new();
    assert_eq!(exit_code(&mut fs, &[EXE, "tests/nothing", "tests/copy"]), Ok(1));
    assert_eq!(fs.read("tests/copy"), None);
}

#[test]
fn test_same_file_is_not_copied_onto_itself() {
    let mut fs = MemFs::new();
    assert_eq!(exit_code(&mut fs, &[EXE, "tests/original", "tests/original"]), Ok(PANICKED));
    // A `.` after the start of the resolved path does not make it another file.
    assert_eq!(fs.resolved("./tests/original").unwrap(), "/work/./tests/original");
    assert_eq!(exit_code(&mut fs, &[EXE, "./tests/original", "tests/original"]), Ok(PANICKED));
    assert_eq!(fs.read("tests/original").unwrap(), "Interesting content.");
}

#[test]
fn test_same_file_in_directory_is_not_copied() {
    let mut fs = MemFs::new();
    fs.write("tests/dest/a", "Already here.");
    assert_eq!(exit_code(&mut fs, &[EXE, "tests/dest/a", "./tests/dest"]), Ok(0));
    assert_eq!(fs.read("tests/dest/a").unwrap(), "Already here.");
}

#[test]
fn test_directory_sources_are_omitted() {
    let mut fs = MemFs::new();
    let status = run(&mut fs, &[EXE, "tests/source", "tests/original", "tests/dest"]).unwrap();
    assert!(status);
    assert_eq!(fs.read("tests/dest/source"), None);
    assert_eq!(fs.read("tests/dest/original").unwrap(), "Interesting content.");
}

#[test]
fn test_repeated_source_is_copied_once() {
    let mut fs = MemFs::new();
    fs.write("tests/dest/a", "Old.");
    let status =
        run(&mut fs, &[EXE, "./tests/source/a", "tests/source/a", "tests/dest"]).unwrap();
    assert!(status);
    assert_eq!(fs.read("tests/dest/a").unwrap(), "A content.");
    let mut run_state = DirectoryInstall::new();
    let first = run_state.next_action(false, false, "/w/dest/a", "/w/./source/a");
    let again = run_state.next_action(false, false, "/w/dest/a", "/w//source/a");
    assert_eq!(first, EntryAction::Copy);
    assert_eq!(again, EntryAction::AlreadyInstalled);
}

#[test]
fn test_links_resolve_to_target_name() {
    let mut fs = MemFs::new();
    fs.links.insert("/work/tests/alias".to_string(), "/work/tests/original".to_string());
    fs.write("tests/alias", "Interesting content.");
    assert_eq!(fs.resolved("tests/alias").unwrap(), "/work/tests/original");
}

#[test]
fn test_mode_option_sets_mode() {
    let mut fs = MemFs::new();
    let status = run(&mut fs, &[EXE, "-m", "644", "tests/original", "tests/copy"]).unwrap();
    assert!(status);
    assert_eq!(fs.read("tests/copy").unwrap(), "Interesting content.");
    assert_eq!(fs.mode("tests/copy"), Some(0o644));
}

#[test]
fn test_without_mode_permissions_are_left_alone() {
    let mut fs = MemFs::new();
    assert!(run(&mut fs, &[EXE, "tests/original", "tests/dest"]).unwrap());
    assert_eq!(fs.mode("tests/dest/original"), None);
}

#[test]
fn test_symbolic_mode_in_directory() {
    let mut fs = MemFs::new();
    assert!(run(&mut fs, &[EXE, "--mode=u=rw,go+r", "-t", "tests/dest", "tests/source/a"]).unwrap());
    assert_eq!(fs.mode("tests/dest/a"), Some(0o644));
}

#[test]
fn test_invalid_mode_fails() {
    let mut fs = MemFs::new();
    assert_eq!(exit_code(&mut fs, &[EXE, "-m", "u+q", "tests/original", "tests/copy"]), Ok(1));
    assert_eq!(fs.read("tests/copy"), None);
}

#[test]
fn test_directory_option_creates_directories() {
    let mut fs = MemFs::new();
    assert!(run(&mut fs, &[EXE, "-d", "tests/newdir", "tests/deep/er"]).unwrap());
    assert!(fs.is_dir("tests/newdir"));
    assert!(fs.is_dir("tests/deep"));
    assert!(fs.is_dir("tests/deep/er"));
    assert_eq!(fs.mode("tests/newdir"), None);
    assert!(run(&mut fs, &[EXE, "-d", "-m", "700", "tests/private"]).unwrap());
    assert_eq!(fs.mode("tests/private"), Some(0o700));
}

#[test]
fn test_no_target_directory_copies_onto_file() {
    let mut fs = MemFs::new();
    assert!(run(&mut fs, &[EXE, "-T", "tests/original", "tests/copy"]).unwrap());
    assert_eq!(fs.read("tests/copy").unwrap(), "Interesting content.");
    // Onto a directory, the copy fails rather than going inside it.
    assert_eq!(exit_code(&mut fs, &[EXE, "-T", "tests/original", "tests/dest"]), Ok(PANICKED));
    assert_eq!(fs.read("tests/dest/original"), None);
}

#[test]
fn test_usage_errors_exit_with_one() {
    let mut fs = MemFs::new();
    assert_eq!(exit_code(&mut fs, &[EXE, "tests/original"]), Ok(1));
    assert_eq!(exit_code(&mut fs, &[EXE, "-t", "tests/dest"]), Ok(1));
    assert_eq!(exit_code(&mut fs, &[EXE, "-h"]), Ok(0));
}

#[test]
fn test_absolute_path_resolves_the_same_from_any_directory() {
    let mut fs = MemFs::new();
    let here = fs.resolved("/work//tests/./original").unwrap();
    fs.cwd = "/elsewhere/deep".to_string();
    let there = fs.resolved("/work//tests/./original").unwrap();
    assert_eq!(path_components(&here), path_components("/work/tests/original"));
    assert_eq!(path_components(&here), path_components(&there));
}
