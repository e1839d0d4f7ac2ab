//! The decisions of `install`: what the command line asks for, where each
//! source goes, and which copies are made or refused.

use vstd::prelude::*;
use vstd::string::*;

use crate::mode::{parse_mode, spec_parse_mode};
use crate::options::ParsedArgs;
use crate::paths::{
    file_name, is_absolute, is_piece, lemma_components_are_pieces, lemma_file_name_is_plain,
    lemma_named_pieces_push, lemma_push_name, lemma_push_piece, named_pieces, paths_equal,
    push_path, same_path, split_on,
    spec_components, spec_file_name, spec_push,
};

verus! {

/// A command line that names too few or too many paths, or options that do
/// not go together.
#[derive(Debug, PartialEq, Eq, Structural, Clone, Copy)]
pub enum UsageError {
    /// Fewer than two paths were given where a source and a destination are
    /// needed.
    MissingTarget,
    /// With `--target-directory`, no source was given.
    MissingSource,
    /// With `--directory`, no directory was given.
    MissingDirectory,
    /// With `--no-target-directory`, more than one source was given.
    ExtraOperand,
    /// `--directory` and `--target-directory` were both given.
    TargetWithDirectory,
    /// `--no-target-directory` and `--target-directory` were both given.
    TargetWithNoTarget,
}

/// An install to carry out: the sources in order, the destination, whether
/// the destination was given by `--target-directory`, whether it is to be
/// treated as a file whatever it is, and what `--mode` asks for.
pub struct Invocation {
    pub sources: Vec<String>,
    pub dest: String,
    pub target_directory_given: bool,
    pub no_target_directory: bool,
    pub mode: ModeRequest,
}

/// What `--mode` asks for: nothing, when it is absent, so that installed
/// files keep the permissions that copying gives them; the mode bits it
/// names; or nothing usable, when its text is not a mode.
#[derive(Debug, PartialEq, Eq, Structural, Clone, Copy)]
pub enum ModeRequest {
    Unchanged,
    Bits(u32),
    Invalid,
}

/// What a command line asks for.
pub enum Command {
    Help,
    Version,
    Install(Invocation),
    MakeDirectories { directories: Vec<String>, mode: ModeRequest },
    Usage(UsageError),
}

/// What the text of `--mode`, if given, asks for.
pub open spec fn requested_mode(mode: Option<String>) -> ModeRequest {
    match mode {
        Some(text) => match spec_parse_mode(text@) {
            Some(bits) => ModeRequest::Bits(bits),
            None => ModeRequest::Invalid,
        },
        None => ModeRequest::Unchanged,
    }
}

/// Decides what the parsed command line asks for. Help, then the version,
/// take precedence. With `--directory`, every free argument is a directory
/// to create. With `--no-target-directory`, the two free arguments are the
/// source and the destination file. With `--target-directory`, its value is
/// the destination and every free argument is a source; otherwise the last
/// free argument is the destination and the others are sources.
pub fn plan_command(parsed: ParsedArgs) -> (cmd: Command)
    ensures
        parsed.help ==> cmd is Help,
        !parsed.help && parsed.version ==> cmd is Version,
        !parsed.help && !parsed.version && parsed.directory ==> if parsed.target_directory is Some {
            cmd == Command::Usage(UsageError::TargetWithDirectory)
        } else if parsed.free.len() == 0 {
            cmd == Command::Usage(UsageError::MissingDirectory)
        } else {
            cmd == (Command::MakeDirectories {
                directories: parsed.free,
                mode: requested_mode(parsed.mode),
            })
        },
        !parsed.help && !parsed.version && !parsed.directory && parsed.no_target_directory ==> if parsed.target_directory is Some {
            cmd == Command::Usage(UsageError::TargetWithNoTarget)
        } else if parsed.free.len() <= 1 {
            cmd == Command::Usage(UsageError::MissingTarget)
        } else if parsed.free.len() > 2 {
            cmd == Command::Usage(UsageError::ExtraOperand)
        } else {
            &&& cmd matches Command::Install(inv)
            &&& inv.sources@ == seq![parsed.free@[0]]
            &&& inv.dest == parsed.free@[1]
            &&& !inv.target_directory_given
            &&& inv.no_target_directory
            &&& inv.mode == requested_mode(parsed.mode)
        },
        !parsed.help && !parsed.version && !parsed.directory && !parsed.no_target_directory
            && parsed.target_directory is None ==> if parsed.free.len() <= 1 {
            cmd == Command::Usage(UsageError::MissingTarget)
        } else {
            &&& cmd matches Command::Install(inv)
            &&& inv.dest == parsed.free@.last()
            &&& inv.sources@ == parsed.free@.drop_last()
            &&& !inv.target_directory_given
            &&& !inv.no_target_directory
            &&& inv.mode == requested_mode(parsed.mode)
        },
        !parsed.help && !parsed.version && !parsed.directory && !parsed.no_target_directory
            && parsed.target_directory is Some ==> if parsed.free.len() == 0 {
            cmd == Command::Usage(UsageError::MissingSource)
        } else {
            &&& cmd matches Command::Install(inv)
            &&& inv.dest == parsed.target_directory->0
            &&& inv.sources@ == parsed.free@
            &&& inv.target_directory_given
            &&& !inv.no_target_directory
            &&& inv.mode == requested_mode(parsed.mode)
        },
        cmd matches Command::Install(inv) ==> inv.sources.len() >= 1,
{
    if parsed.help {
        return Command::Help;
    }
    if parsed.version {
        return Command::Version;
    }
    let ParsedArgs {
        help: _,
        version: _,
        directory,
        no_target_directory,
        target_directory,
        mode: mode_text,
        free,
    } = parsed;
    let mode = match &mode_text {
        Some(text) => match parse_mode(text.as_str()) {
            Some(bits) => ModeRequest::Bits(bits),
            None => ModeRequest::Invalid,
        },
        None => ModeRequest::Unchanged,
    };
    let mut free = free;
    if directory {
        if target_directory.is_some() {
            return Command::Usage(UsageError::TargetWithDirectory);
        }
        if free.len() == 0 {
            return Command::Usage(UsageError::MissingDirectory);
        }
        return Command::MakeDirectories { directories: free, mode };
    }
    if no_target_directory {
        if target_directory.is_some() {
            return Command::Usage(UsageError::TargetWithNoTarget);
        }
        if free.len() <= 1 {
            return Command::Usage(UsageError::MissingTarget);
        }
        if free.len() > 2 {
            return Command::Usage(UsageError::ExtraOperand);
        }
        let ghost pair = free@;
        let dest = match free.pop() {
            Some(last) => last,
            None => return Command::Usage(UsageError::MissingTarget),
        };
        assert(free@ =~= seq![pair[0]]);
        return Command::Install(
            Invocation {
                sources: free,
                dest,
                target_directory_given: false,
                no_target_directory: true,
                mode,
            },
        );
    }
    let target_directory_given = target_directory.is_some();
    let dest = match target_directory {
        Some(t) => t,
        None => {
            if free.len() <= 1 {
                return Command::Usage(UsageError::MissingTarget);
            }
            match free.pop() {
                Some(last) => last,
                None => return Command::Usage(UsageError::MissingTarget),
            }
        },
    };
    if free.len() == 0 {
        return Command::Usage(UsageError::MissingSource);
    }
    Command::Install(
        Invocation {
            sources: free,
            dest,
            target_directory_given,
            no_target_directory: false,
            mode,
        },
    )
}

/// Finds the first source that does not exist, given for each source, in
/// order, whether it exists.
pub fn first_missing_source(exists: &Vec<bool>) -> (missing: Option<usize>)
    ensures
        missing matches Some(i) ==> i < exists.len() && !exists@[i as int] && forall|j: int|
            0 <= j < i ==> exists@[j],
        missing is None ==> forall|j: int| 0 <= j < exists.len() ==> exists@[j],
{
    let mut i: usize = 0;
    while i < exists.len()
        invariant
            i <= exists.len(),
            forall|j: int| 0 <= j < i ==> exists@[j],
        decreases exists.len() - i,
    {
        if !exists[i] {
            return Some(i);
        }
        i = i + 1;
    }
    None
}

/// Why an install stops before it touches any file.
#[derive(Debug, PartialEq, Eq, Structural, Clone, Copy)]
pub enum InstallFailure {
    /// The source at this position does not exist.
    MissingSource(usize),
    /// The text of `--mode` is not a mode.
    InvalidMode,
}

/// The mode bits to give, if any, for what `--mode` asks for.
pub fn mode_to_apply(mode: ModeRequest) -> (bits: Result<Option<u32>, InstallFailure>)
    ensures
        mode == ModeRequest::Unchanged ==> bits == Ok::<Option<u32>, InstallFailure>(None),
        mode matches ModeRequest::Bits(b) ==> bits == Ok::<Option<u32>, InstallFailure>(Some(b)),
        mode == ModeRequest::Invalid ==> bits == Err::<Option<u32>, _>(InstallFailure::InvalidMode),
{
    match mode {
        ModeRequest::Unchanged => Ok(None),
        ModeRequest::Bits(b) => Ok(Some(b)),
        ModeRequest::Invalid => Err(InstallFailure::InvalidMode),
    }
}

/// The checks made before an install touches a file, in their order: every
/// source must exist (`present` tells, for each source in order, whether it
/// does), then `--mode` must be a mode. On success, the mode bits to give,
/// if any.
pub fn check_invocation(inv: &Invocation, present: &Vec<bool>) -> (checked: Result<
    Option<u32>,
    InstallFailure,
>)
    ensures
        checked matches Err(InstallFailure::MissingSource(i)) ==> i < present.len()
            && !present@[i as int] && forall|j: int| 0 <= j < i ==> present@[j],
        (exists|j: int| 0 <= j < present.len() && !present@[j]) ==> (checked matches Err(
            InstallFailure::MissingSource(_),
        )),
        (forall|j: int| 0 <= j < present.len() ==> present@[j]) ==> match inv.mode {
            ModeRequest::Unchanged => checked == Ok::<Option<u32>, InstallFailure>(None),
            ModeRequest::Bits(b) => checked == Ok::<Option<u32>, InstallFailure>(Some(b)),
            ModeRequest::Invalid => checked == Err::<Option<u32>, _>(InstallFailure::InvalidMode),
        },
{
    match first_missing_source(present) {
        Some(i) => Err(InstallFailure::MissingSource(i)),
        None => mode_to_apply(inv.mode),
    }
}

/// The message that a usage error is reported with.
pub open spec fn usage_error_text(e: UsageError) -> Seq<char> {
    match e {
        UsageError::MissingTarget => "Missing TARGET argument.  Try --help."@,
        UsageError::MissingSource => "Missing SOURCE argument. Try --help."@,
        UsageError::MissingDirectory => "missing file operand. Try --help."@,
        UsageError::ExtraOperand => "extra operand. Try --help."@,
        UsageError::TargetWithDirectory => "target directory not allowed when installing a directory"@,
        UsageError::TargetWithNoTarget => "cannot combine --target-directory (-t) and --no-target-directory (-T)"@,
    }
}

/// The status that a run which stops on a usage error or a failed check
/// returns.
pub const FAILURE_STATUS: i32 = 1;

/// The message for a usage error.
pub fn usage_error_message(e: UsageError) -> (text: String)
    ensures
        text@ == usage_error_text(e),
{
    match e {
        UsageError::MissingTarget => String::from_str("Missing TARGET argument.  Try --help."),
        UsageError::MissingSource => String::from_str("Missing SOURCE argument. Try --help."),
        UsageError::MissingDirectory => String::from_str("missing file operand. Try --help."),
        UsageError::ExtraOperand => String::from_str("extra operand. Try --help."),
        UsageError::TargetWithDirectory => String::from_str(
            "target directory not allowed when installing a directory",
        ),
        UsageError::TargetWithNoTarget => String::from_str(
            "cannot combine --target-directory (-t) and --no-target-directory (-T)",
        ),
    }
}

/// The message for a failed check, given the source at fault or the text of
/// `--mode`.
pub fn install_failure_message(failure: InstallFailure, source: &str, mode_text: &str) -> (text:
    String)
    ensures
        failure is MissingSource ==> text@ == "cannot stat ‘"@ + source@
            + "’: No such file or directory"@,
        failure is InvalidMode ==> text@ == "invalid mode '"@ + mode_text@ + "'"@,
{
    match failure {
        InstallFailure::MissingSource(_) => {
            let mut text = String::from_str("cannot stat ‘");
            text.append(source);
            text.append("’: No such file or directory");
            text
        },
        InstallFailure::InvalidMode => {
            let mut text = String::from_str("invalid mode '");
            text.append(mode_text);
            text.append("'");
            text
        },
    }
}

/// How sources are installed: each into a directory under its own name, or
/// the one source onto a file.
#[derive(Debug, PartialEq, Eq, Structural, Clone, Copy)]
pub enum Layout {
    IntoDirectory,
    OntoFile,
}

/// Installs onto a file when `--no-target-directory` was given; otherwise
/// into a directory when `--target-directory` was given, when there is more
/// than one source, or when the destination is a directory; onto a file
/// otherwise.
pub fn choose_layout(inv: &Invocation, dest_is_dir: bool) -> (layout: Layout)
    ensures
        (layout == Layout::IntoDirectory) == (!inv.no_target_directory && (
        inv.target_directory_given || inv.sources.len() > 1 || dest_is_dir)),
        layout == Layout::OntoFile ==> inv.sources.len() <= 1 || inv.no_target_directory,
{
    if !inv.no_target_directory && (inv.target_directory_given || inv.sources.len() > 1
        || dest_is_dir) {
        Layout::IntoDirectory
    } else {
        Layout::OntoFile
    }
}

/// Why the destination of an install into a directory cannot be used.
#[derive(Debug, PartialEq, Eq, Structural, Clone, Copy)]
pub enum TargetError {
    /// The destination exists and is not a directory.
    NotADirectory,
    /// Nothing could be read about the destination.
    Inaccessible,
}

/// Checks the destination of an install into a directory, given what could
/// be read about it: `None` where nothing could be read, else whether it is a
/// directory.
pub fn check_target_directory(dest_is_dir: Option<bool>) -> (checked: Result<(), TargetError>)
    ensures
        dest_is_dir == Some(true) <==> checked is Ok,
        dest_is_dir == Some(false) <==> checked == Err::<(), _>(TargetError::NotADirectory),
        dest_is_dir is None <==> checked == Err::<(), _>(TargetError::Inaccessible),
{
    match dest_is_dir {
        Some(true) => Ok(()),
        Some(false) => Err(TargetError::NotADirectory),
        None => Err(TargetError::Inaccessible),
    }
}

/// Where `source` is installed in the directory `dest`: `dest` with the
/// source's file name appended; `None` where the source has no file name.
pub fn target_path(dest: &str, source: &str) -> (target: Option<String>)
    ensures
        target.deep_view() == spec_target_path(dest@, source@),
{
    match file_name(source) {
        Some(name) => Some(push_path(dest, name.as_str())),
        None => None,
    }
}

/// An installed file keeps the name of its source, as the last component
/// under the destination directory.
pub proof fn lemma_target_keeps_name(dest: Seq<char>, source: Seq<char>)
    requires
        spec_file_name(source) is Some,
    ensures
        spec_components(spec_push(dest, spec_file_name(source)->0)) == spec_components(
            dest,
        ).push(spec_file_name(source)->0),
        spec_file_name(spec_push(dest, spec_file_name(source)->0)) == spec_file_name(source),
{
    lemma_file_name_is_plain(source);
    lemma_push_name(dest, spec_file_name(source)->0);
}


/// What becomes of one source in an install into a directory.
#[derive(Debug, PartialEq, Eq, Structural, Clone, Copy)]
pub enum EntryAction {
    /// The source is a directory: it is left out.
    OmitDirectory,
    /// Its place in the destination is a directory, which a file does not
    /// replace.
    CannotOverwriteDirectory,
    /// The source and its place in the destination are the same file.
    SameFile,
    /// A source with the same resolved path was installed earlier in this run.
    AlreadyInstalled,
    /// The source is copied to its place in the destination.
    Copy,
}

/// Some path in `installed` names the same file as `path`, paths being
/// compared component by component.
pub open spec fn holds_path(installed: Seq<Seq<char>>, path: Seq<char>) -> bool {
    exists|k: int| 0 <= k < installed.len() && same_path(#[trigger] installed[k], path)
}

/// No two paths in `installed` name the same file.
pub open spec fn names_each_file_once(installed: Seq<Seq<char>>) -> bool {
    forall|i: int, j: int|
        0 <= i < installed.len() && 0 <= j < installed.len() && i != j ==> !same_path(
            #[trigger] installed[i],
            #[trigger] installed[j],
        )
}

/// The action for one source, given whether it is a directory, whether its
/// place in the destination is a directory, the resolved paths of that place
/// and of the source, and the resolved paths of the sources installed so far.
/// The checks apply in this order; paths are compared component by
/// component.
pub open spec fn spec_entry_action(
    installed: Seq<Seq<char>>,
    source_is_dir: bool,
    target_is_dir: bool,
    real_target: Seq<char>,
    real_source: Seq<char>,
) -> EntryAction {
    if source_is_dir {
        EntryAction::OmitDirectory
    } else if target_is_dir {
        EntryAction::CannotOverwriteDirectory
    } else if same_path(real_target, real_source) {
        EntryAction::SameFile
    } else if holds_path(installed, real_source) {
        EntryAction::AlreadyInstalled
    } else {
        EntryAction::Copy
    }
}

/// The resolved paths of the installed sources after one action: a copy adds
/// its source, any other action adds nothing.
pub open spec fn spec_record(
    installed: Seq<Seq<char>>,
    action: EntryAction,
    real_source: Seq<char>,
) -> Seq<Seq<char>> {
    if action == EntryAction::Copy {
        installed.push(real_source)
    } else {
        installed
    }
}

/// The progress of an install into a directory: the resolved paths of the
/// sources copied so far, no two of them naming the same file.
pub struct DirectoryInstall {
    installed: Vec<String>,
}

impl DirectoryInstall {
    /// The resolved paths of the sources copied so far, in order.
    pub closed spec fn installed(&self) -> Seq<Seq<char>> {
        self.installed.deep_view()
    }

    #[verifier::type_invariant]
    spec fn each_installed_once(&self) -> bool {
        names_each_file_once(self.installed.deep_view())
    }

    /// An install into a directory that has copied nothing yet.
    pub fn new() -> (run: DirectoryInstall)
        ensures
            run.installed() == Seq::<Seq<char>>::empty(),
    {
        let run = DirectoryInstall { installed: Vec::new() };
        assert(run.installed.deep_view() =~= Seq::<Seq<char>>::empty());
        run
    }

    /// Whether a source whose resolved path names the same file as
    /// `real_source` was copied.
    fn has_installed(&self, real_source: &str) -> (found: bool)
        ensures
            found == holds_path(self.installed(), real_source@),
    {
        let mut i: usize = 0;
        while i < self.installed.len()
            invariant
                i <= self.installed.len(),
                forall|j: int|
                    0 <= j < i ==> !same_path(#[trigger] self.installed.deep_view()[j], real_source@),
            decreases self.installed.len() - i,
        {
            if paths_equal(self.installed[i].as_str(), real_source) {
                assert(self.installed.deep_view()[i as int] == self.installed[i as int]@);
                return true;
            }
            i = i + 1;
        }
        false
    }

    /// Decides what becomes of the next source, given whether it is a
    /// directory, whether its place in the destination is a directory, and
    /// the resolved paths of that place and of the source; a copy is
    /// recorded. Facts that an earlier check settles are not read: a caller
    /// may pass anything for them.
    pub fn next_action(
        &mut self,
        source_is_dir: bool,
        target_is_dir: bool,
        real_target: &str,
        real_source: &str,
    ) -> (action: EntryAction)
        ensures
            action == spec_entry_action(
                old(self).installed(),
                source_is_dir,
                target_is_dir,
                real_target@,
                real_source@,
            ),
            final(self).installed() == spec_record(old(self).installed(), action, real_source@),
            names_each_file_once(final(self).installed()),
    {
        proof { use_type_invariant(&*self); }
        if source_is_dir {
            return EntryAction::OmitDirectory;
        }
        if target_is_dir {
            return EntryAction::CannotOverwriteDirectory;
        }
        if paths_equal(real_target, real_source) {
            return EntryAction::SameFile;
        }
        if self.has_installed(real_source) {
            return EntryAction::AlreadyInstalled;
        }
        let ghost before = self.installed.deep_view();
        let mut installed = Vec::new();
        std::mem::swap(&mut installed, &mut self.installed);
        installed.push(String::from_str(real_source));
        proof {
            assert(installed.deep_view() =~= before.push(real_source@));
            let now = installed.deep_view();
            assert(names_each_file_once(now)) by {
                assert forall|i: int, j: int|
                    0 <= i < now.len() && 0 <= j < now.len() && i != j implies !same_path(
                        #[trigger] now[i],
                        #[trigger] now[j],
                    ) by {
                    if i < before.len() && j < before.len() {
                        assert(before[i] == now[i] && before[j] == now[j]);
                    } else if i == before.len() {
                        assert(before[j] == now[j]);
                    } else {
                        assert(before[i] == now[i]);
                    }
                }
            }
        }
        self.installed = installed;
        EntryAction::Copy
    }
}


/// The resolved paths of the installed sources after the sources described
/// by `entries` were met in order, starting from `installed`. Each entry
/// holds whether the source is a directory, whether its place in the
/// destination is a directory, and the resolved paths of that place and of
/// the source.
pub open spec fn installed_after(
    installed: Seq<Seq<char>>,
    entries: Seq<(bool, bool, Seq<char>, Seq<char>)>,
) -> Seq<Seq<char>>
    decreases entries.len(),
{
    if entries.len() == 0 {
        installed
    } else {
        let before = installed_after(installed, entries.drop_last());
        let e = entries.last();
        spec_record(before, spec_entry_action(before, e.0, e.1, e.2, e.3), e.3)
    }
}

/// The action taken for the entry at `i` in a run over `entries` that
/// starts from `installed`.
pub open spec fn action_at(
    installed: Seq<Seq<char>>,
    entries: Seq<(bool, bool, Seq<char>, Seq<char>)>,
    i: int,
) -> EntryAction {
    let e = entries[i];
    spec_entry_action(installed_after(installed, entries.take(i)), e.0, e.1, e.2, e.3)
}

/// A source that was copied stays recorded for the rest of the run.
pub proof fn lemma_copied_stays_recorded(
    installed: Seq<Seq<char>>,
    entries: Seq<(bool, bool, Seq<char>, Seq<char>)>,
    i: int,
    k: int,
)
    requires
        0 <= i < k <= entries.len(),
        action_at(installed, entries, i) == EntryAction::Copy,
    ensures
        installed_after(installed, entries.take(k)).contains(entries[i].3),
    decreases k,
{
    let prefix = entries.take(k);
    assert(prefix.drop_last() =~= entries.take(k - 1));
    assert(prefix.last() == entries[k - 1]);
    let before = installed_after(installed, entries.take(k - 1));
    if k == i + 1 {
        assert(before.push(entries[i].3)[before.len() as int] == entries[i].3);
    } else {
        lemma_copied_stays_recorded(installed, entries, i, k - 1);
        let w = choose|w: int| 0 <= w < before.len() && before[w] == entries[i].3;
        let e = entries[k - 1];
        let after = spec_record(before, spec_entry_action(before, e.0, e.1, e.2, e.3), e.3);
        assert(after[w] == entries[i].3);
    }
}

/// In an install into a directory, no two copies are made from sources whose
/// resolved paths name the same file: once a source is copied, a later
/// source that resolves to the same file is refused.
pub proof fn lemma_no_source_copied_twice(
    entries: Seq<(bool, bool, Seq<char>, Seq<char>)>,
    i: int,
    j: int,
)
    requires
        0 <= i < j < entries.len(),
        action_at(Seq::empty(), entries, i) == EntryAction::Copy,
        action_at(Seq::empty(), entries, j) == EntryAction::Copy,
    ensures
        !same_path(entries[i].3, entries[j].3),
{
    lemma_copied_stays_recorded(Seq::empty(), entries, i, j);
    let before = installed_after(Seq::<Seq<char>>::empty(), entries.take(j));
    let w = choose|w: int| 0 <= w < before.len() && before[w] == entries[i].3;
    if same_path(entries[i].3, entries[j].3) {
        assert(same_path(before[w], entries[j].3));
        assert(holds_path(before, entries[j].3));
    }
}

/// The path that an install into `dest` writes for `source`: `dest` with the
/// source's file name appended.
pub open spec fn spec_target_path(dest: Seq<char>, source: Seq<char>) -> Option<Seq<char>> {
    match spec_file_name(source) {
        Some(name) => Some(spec_push(dest, name)),
        None => None,
    }
}

/// What an install into the directory `dest` writes, for the entry at `i`
/// of a run over `sources`, where `entries[i]` describes `sources[i]` as
/// `next_action` reads it: a copy writes the source's target path, which
/// lies directly in `dest` and carries the source's file name; the source is
/// a file and the target is not a directory; the target does not resolve to
/// the source itself; and no earlier copy of the run came from a source that
/// resolves to the same file.
pub proof fn lemma_directory_install_copy(
    dest: Seq<char>,
    sources: Seq<Seq<char>>,
    entries: Seq<(bool, bool, Seq<char>, Seq<char>)>,
    i: int,
)
    requires
        sources.len() == entries.len(),
        0 <= i < entries.len(),
        spec_file_name(sources[i]) is Some,
        action_at(Seq::empty(), entries, i) == EntryAction::Copy,
    ensures
        spec_target_path(dest, sources[i]) matches Some(t) && spec_components(t) == spec_components(
            dest,
        ).push(spec_file_name(sources[i])->0) && spec_file_name(t) == spec_file_name(sources[i]),
        !entries[i].0 && !entries[i].1,
        !same_path(entries[i].2, entries[i].3),
        forall|j: int|
            0 <= j < i && action_at(Seq::empty(), entries, j) == EntryAction::Copy ==> !same_path(
                #[trigger] entries[j].3,
                entries[i].3,
            ),
{
    lemma_target_keeps_name(dest, sources[i]);
    assert forall|j: int|
        0 <= j < i && action_at(Seq::empty(), entries, j) == EntryAction::Copy implies !same_path(
            #[trigger] entries[j].3,
            entries[i].3,
        ) by {
        lemma_no_source_copied_twice(entries, j, i);
    }
}

/// One more source met extends the run by one step of `next_action`.
pub proof fn lemma_installed_after_push(
    installed: Seq<Seq<char>>,
    entries: Seq<(bool, bool, Seq<char>, Seq<char>)>,
    e: (bool, bool, Seq<char>, Seq<char>),
)
    ensures
        installed_after(installed, entries.push(e)) == spec_record(
            installed_after(installed, entries),
            spec_entry_action(installed_after(installed, entries), e.0, e.1, e.2, e.3),
            e.3,
        ),
        action_at(installed, entries.push(e), entries.len() as int) == spec_entry_action(
            installed_after(installed, entries),
            e.0,
            e.1,
            e.2,
            e.3,
        ),
{
    assert(entries.push(e).drop_last() =~= entries);
    assert(entries.push(e).take(entries.len() as int) =~= entries);
}

/// Whether installing a source onto a file may copy, given the resolved
/// paths of the source and of the destination: not when they name the same
/// file, paths being compared component by component.
pub fn may_copy_onto(real_source: &str, real_dest: &str) -> (copy: bool)
    ensures
        copy == !same_path(real_source@, real_dest@),
{
    !paths_equal(real_source, real_dest)
}

/// One step of resolving a path: the link target, where the path with the
/// component appended is a symbolic link, contributes its file name (none
/// stops the resolution); otherwise the component is appended.
pub open spec fn spec_resolve_step(
    resolved: Seq<char>,
    component: Seq<char>,
    link_target: Option<Seq<char>>,
) -> Option<Seq<char>> {
    match link_target {
        None => Some(spec_push(resolved, component)),
        Some(t) => match spec_file_name(t) {
            Some(name) => Some(spec_push(resolved, name)),
            None => None,
        },
    }
}

/// Resolving the components `comps` one by one from `start`, where reading
/// the path built before component `i` with it appended as a link gave
/// `links[i]`.
pub open spec fn spec_resolve(
    start: Seq<char>,
    comps: Seq<Seq<char>>,
    links: Seq<Option<Seq<char>>>,
) -> Option<Seq<char>>
    decreases comps.len(),
{
    if comps.len() == 0 {
        Some(start)
    } else {
        match spec_resolve(start, comps.drop_last(), links) {
            Some(r) => spec_resolve_step(r, comps.last(), links[comps.len() - 1]),
            None => None,
        }
    }
}

/// Resolving the first `k` components of an absolute path with no symbolic
/// link among them gives a path with exactly those components.
proof fn lemma_resolve_absolute_prefix(
    start: Seq<char>,
    path: Seq<char>,
    links: Seq<Option<Seq<char>>>,
    k: int,
)
    requires
        is_absolute(path),
        1 <= k <= spec_components(path).len(),
        forall|i: int| 0 <= i < spec_components(path).len() ==> #[trigger] links[i] is None,
    ensures
        spec_resolve(start, spec_components(path).take(k), links) matches Some(r)
            && spec_components(r) == spec_components(path).take(k),
    decreases k,
{
    let comps = spec_components(path);
    lemma_components_are_pieces(path);
    let prefix = comps.take(k);
    assert(prefix.drop_last() =~= comps.take(k - 1));
    assert(prefix.last() == comps[k - 1]);
    assert(links[k - 1] is None);
    if k == 1 {
        assert(comps.take(0) =~= Seq::<Seq<char>>::empty());
        let root = seq!['/'];
        assert(is_absolute(root));
        assert(spec_push(start, root) == root);
        assert(root.drop_last() =~= Seq::<char>::empty());
        assert(root.last() == '/');
        assert(split_on(Seq::<char>::empty(), '/') =~= seq![Seq::<char>::empty()]);
        assert(split_on(root, '/') == split_on(Seq::<char>::empty(), '/').push(Seq::empty()));
        assert(split_on(root, '/') =~= seq![Seq::<char>::empty(), Seq::<char>::empty()]);
        assert(named_pieces(seq![Seq::<char>::empty(), Seq::<char>::empty()]) =~= Seq::<
            Seq<char>,
        >::empty()) by {
            reveal(Seq::filter);
            lemma_named_pieces_push(seq![Seq::<char>::empty()], Seq::empty());
            lemma_named_pieces_push(Seq::empty(), Seq::empty());
            assert(seq![Seq::<char>::empty()] =~= Seq::<Seq<char>>::empty().push(Seq::empty()));
            assert(seq![Seq::<char>::empty(), Seq::<char>::empty()] =~= seq![
                Seq::<char>::empty(),
            ].push(Seq::empty()));
        }
        assert(spec_components(root) =~= seq![root]);
        assert(prefix =~= seq![root]);
    } else {
        lemma_resolve_absolute_prefix(start, path, links, k - 1);
        let r = spec_resolve(start, comps.take(k - 1), links)->0;
        assert(is_piece(comps[k - 1]));
        lemma_push_piece(r, comps[k - 1]);
        assert(comps.take(k - 1).push(comps[k - 1]) =~= prefix);
    }
}

/// Resolving an absolute path in which no prefix is a symbolic link gives a
/// path with the same components, whatever it starts from: the current
/// directory does not matter.
pub proof fn lemma_resolve_absolute(
    start: Seq<char>,
    other_start: Seq<char>,
    path: Seq<char>,
    links: Seq<Option<Seq<char>>>,
)
    requires
        is_absolute(path),
        forall|i: int| 0 <= i < spec_components(path).len() ==> #[trigger] links[i] is None,
    ensures
        spec_resolve(start, spec_components(path), links) matches Some(r) && spec_components(r)
            == spec_components(path),
        spec_resolve(start, spec_components(path), links) matches Some(r) && spec_resolve(
            other_start,
            spec_components(path),
            links,
        ) matches Some(q) && same_path(r, q),
{
    let comps = spec_components(path);
    lemma_components_are_pieces(path);
    lemma_resolve_absolute_prefix(start, path, links, comps.len() as int);
    lemma_resolve_absolute_prefix(other_start, path, links, comps.len() as int);
    assert(comps.take(comps.len() as int) =~= comps);
}

/// One step of resolving a path against the file system: `resolved` is the
/// path resolved so far, `component` the next component, and `link_target`
/// what reading `resolved` with `component` appended as a symbolic link gave,
/// if it is one. A link contributes the file name of its target, and a
/// target without a file name stops the resolution.
pub fn resolve_component(resolved: &str, component: &str, link_target: Option<&str>) -> (next:
    Option<String>)
    ensures
        next.deep_view() == spec_resolve_step(
            resolved@,
            component@,
            (match link_target {
                Some(t) => Some(t@),
                None => None,
            }),
        ),
{
    match link_target {
        None => Some(push_path(resolved, component)),
        Some(target) => match file_name(target) {
            Some(name) => Some(push_path(resolved, name.as_str())),
            None => None,
        },
    }
}

/// Where the probed path is a symbolic link whose target has a file name,
/// the step appends that file name, whether the target is absolute or
/// relative: the result's last component is the target's name, its other
/// components are those of the path resolved so far, the component that was
/// probed makes no difference, and the result names the same file as
/// appending the target's name directly.
pub proof fn lemma_link_step_takes_target_name(
    resolved: Seq<char>,
    component: Seq<char>,
    other_component: Seq<char>,
    target: Seq<char>,
)
    requires
        spec_file_name(target) is Some,
    ensures
        spec_resolve_step(resolved, component, Some(target)) matches Some(r) && spec_file_name(r)
            == spec_file_name(target) && spec_components(r) == spec_components(resolved).push(
            spec_file_name(target)->0,
        ),
        spec_resolve_step(resolved, component, Some(target)) == spec_resolve_step(
            resolved,
            other_component,
            Some(target),
        ),
        spec_resolve_step(resolved, component, Some(target)) matches Some(r)
            && spec_resolve_step(resolved, spec_file_name(target)->0, None) matches Some(q)
            && same_path(r, q),
{
    lemma_file_name_is_plain(target);
    lemma_push_name(resolved, spec_file_name(target)->0);
}

/// Where the probed path is not a symbolic link, the step appends the
/// component itself.
pub proof fn lemma_plain_step_appends_component(resolved: Seq<char>, component: Seq<char>)
    requires
        is_piece(component),
    ensures
        spec_resolve_step(resolved, component, None) matches Some(r) && spec_components(r)
            == spec_components(resolved).push(component),
{
    lemma_push_piece(resolved, component);
}

/// A source that is a file, whose target is not a directory, that does not
/// resolve to its target and that resolves to no file installed so far is
/// copied, however many copies came before.
pub proof fn lemma_entry_action_complete(
    installed: Seq<Seq<char>>,
    real_target: Seq<char>,
    real_source: Seq<char>,
)
    requires
        !same_path(real_target, real_source),
        !holds_path(installed, real_source),
    ensures
        spec_entry_action(installed, false, false, real_target, real_source) == EntryAction::Copy,
{
}

/// The action for a source depends on the files installed so far only
/// through whether the source is already among them: not on how many there
/// are, nor on which others.
pub proof fn lemma_entry_action_depends_only_on_membership(
    installed: Seq<Seq<char>>,
    other: Seq<Seq<char>>,
    source_is_dir: bool,
    target_is_dir: bool,
    real_target: Seq<char>,
    real_source: Seq<char>,
)
    requires
        holds_path(installed, real_source) == holds_path(other, real_source),
    ensures
        spec_entry_action(installed, source_is_dir, target_is_dir, real_target, real_source)
            == spec_entry_action(other, source_is_dir, target_is_dir, real_target, real_source),
{
}

/// Every path recorded during a run is the resolved path of an earlier
/// source.
pub proof fn lemma_installed_from_earlier_sources(
    entries: Seq<(bool, bool, Seq<char>, Seq<char>)>,
    k: int,
)
    requires
        0 <= k <= entries.len(),
    ensures
        forall|w: int|
            0 <= w < installed_after(Seq::empty(), entries.take(k)).len() ==> exists|j: int|
                0 <= j < k && #[trigger] installed_after(Seq::empty(), entries.take(k))[w]
                    == entries[j].3,
    decreases k,
{
    if k > 0 {
        lemma_installed_from_earlier_sources(entries, k - 1);
        let prefix = entries.take(k);
        assert(prefix.drop_last() =~= entries.take(k - 1));
        assert(prefix.last() == entries[k - 1]);
        let before = installed_after(Seq::<Seq<char>>::empty(), entries.take(k - 1));
        let after = installed_after(Seq::<Seq<char>>::empty(), prefix);
        assert forall|w: int| 0 <= w < after.len() implies exists|j: int|
            0 <= j < k && #[trigger] after[w] == entries[j].3 by {
            if w < before.len() {
                assert(after[w] == before[w]);
                let j = choose|j: int| 0 <= j < k - 1 && before[w] == entries[j].3;
                assert(after[w] == entries[j].3);
            } else {
                assert(after[w] == entries[k - 1].3);
            }
        }
    } else {
        assert(entries.take(0) =~= Seq::<(bool, bool, Seq<char>, Seq<char>)>::empty());
    }
}

/// In an install into a directory, a source that is a file, whose target is
/// not a directory, that does not resolve to its target and that resolves
/// to a file different from every earlier source is copied, at whatever
/// position it comes.
pub proof fn lemma_fresh_source_is_copied(
    entries: Seq<(bool, bool, Seq<char>, Seq<char>)>,
    i: int,
)
    requires
        0 <= i < entries.len(),
        !entries[i].0,
        !entries[i].1,
        !same_path(entries[i].2, entries[i].3),
        forall|j: int| 0 <= j < i ==> !same_path(#[trigger] entries[j].3, entries[i].3),
    ensures
        action_at(Seq::empty(), entries, i) == EntryAction::Copy,
{
    lemma_installed_from_earlier_sources(entries, i);
    let before = installed_after(Seq::<Seq<char>>::empty(), entries.take(i));
    if holds_path(before, entries[i].3) {
        let w = choose|w: int| 0 <= w < before.len() && same_path(#[trigger] before[w], entries[i].3);
        let j = choose|j: int| 0 <= j < i && before[w] == entries[j].3;
        assert(!same_path(entries[j].3, entries[i].3));
    }
}

} // verus!
