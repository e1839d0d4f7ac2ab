//! The command line of `install`: its options, read by `getopts`.

use vstd::prelude::*;
use vstd::string::*;

verus! {

/// What the command line holds once its options are read: the flags, the
/// values of `--target-directory` and `--mode`, and the remaining free
/// arguments in order.
pub struct ParsedArgs {
    pub help: bool,
    pub version: bool,
    pub directory: bool,
    pub no_target_directory: bool,
    pub target_directory: Option<String>,
    pub mode: Option<String>,
    pub free: Vec<String>,
}

/// A parsed command line taken by its views, fields in the order of
/// `ParsedArgs`.
pub type ParsedView = (
    bool,
    bool,
    bool,
    bool,
    Option<Seq<char>>,
    Option<Seq<char>>,
    Seq<Seq<char>>,
);

impl View for ParsedArgs {
    type V = ParsedView;

    open spec fn view(&self) -> ParsedView {
        (
            self.help,
            self.version,
            self.directory,
            self.no_target_directory,
            self.target_directory.deep_view(),
            self.mode.deep_view(),
            self.free.deep_view(),
        )
    }
}

/// A parse outcome taken by its views.
pub open spec fn outcome_view(parsed: Result<ParsedArgs, String>) -> Result<ParsedView, Seq<char>> {
    match parsed {
        Ok(p) => Ok(p@),
        Err(e) => Err(e@),
    }
}

/// A successful parse with no flag and no option set, and `free` as its free
/// arguments.
pub open spec fn only_free_arguments(free: Seq<Seq<char>>) -> Result<ParsedView, Seq<char>> {
    Ok((false, false, false, false, None, None, free))
}

/// An argument that `getopts` reads as an option: one that starts with `-`
/// and is longer than that.
pub open spec fn is_option_like(arg: Seq<char>) -> bool {
    arg.len() > 1 && arg[0] == '-'
}

/// What `getopts` makes of the arguments that follow the program name, with
/// the options of `install` declared: the parsed command line, or the text
/// of its failure.
pub uninterp spec fn getopts_parse(args: Seq<Seq<char>>) -> Result<ParsedView, Seq<char>>;

/// The lines that `getopts` writes after the brief: a heading, then one row
/// for each option of `install` in the order they are declared, each
/// description wrapped at 54 columns and indented to column 24.
pub open spec fn option_rows() -> Seq<char> {
    "\n\nOptions:\n    -h, --help          display this help and exit\n    -v, --version       output version information and exit\n    -d, --directory     treat all arguments as directory names; create all\n                        components of the specified directories\n    -T, --no-target-directory \n                        treat DEST as a normal file\n    -t, --target-directory \n                        Specify the destination directory\n    -m, --mode          Set the file mode bits for the installed file or\n                        directory to mode\n"@
}

/// Declares the options of `install` (`-h/--help`, `-v/--version`,
/// `-d/--directory`, `-T/--no-target-directory`, `-t/--target-directory`,
/// `-m/--mode`) to `getopts`, then calls `getopts::Options::parse` on `args`
/// (a failure is turned into its `Display` text) and
/// `getopts::Options::usage` on `brief`. Trusted: the parse is what
/// `getopts_parse` names; when no argument looks like an option, `getopts`
/// sets no flag and no option and keeps every argument, in order, as free
/// (its parse loop pushes each such argument to `free`, and none of these
/// options is required); the help text is the brief followed by
/// `option_rows`, which is how `usage` lays out these options.
#[verifier::external_body]
fn read_with_getopts(args: &Vec<String>, brief: &str) -> (read: (Result<ParsedArgs, String>, String))
    ensures
        outcome_view(read.0) == getopts_parse(args.deep_view()),
        (forall|i: int| 0 <= i < args.len() ==> !is_option_like(#[trigger] args@[i]@))
            ==> outcome_view(read.0) == only_free_arguments(args.deep_view()),
        read.1@ == brief@ + option_rows(),
{
    let mut o = getopts::Options::new();
    o.optflag("h", "help", "display this help and exit");
    o.optflag("v", "version", "output version information and exit");
    o.optflag("d", "directory", "treat all arguments as directory names; create all components of the specified directories");
    o.optflag("T", "no-target-directory", "treat DEST as a normal file");
    o.optopt("t", "target-directory", "Specify the destination directory", "");
    o.optopt("m", "mode", "Set the file mode bits for the installed file or directory to mode", "");
    let parsed = match o.parse(args) {
        Ok(m) => Ok(ParsedArgs { help: m.opt_present("help"), version: m.opt_present("version"), directory: m.opt_present("directory"), no_target_directory: m.opt_present("no-target-directory"), target_directory: m.opt_str("target-directory"), mode: m.opt_str("mode"), free: m.free }),
        Err(e) => Err(e.to_string()),
    };
    (parsed, o.usage(brief))
}

/// Reads the command line `args`, whose first element is the program name:
/// the arguments after it go to `getopts`.
pub fn parse_command_line(args: &Vec<String>) -> (parsed: Result<ParsedArgs, String>)
    requires
        args.len() >= 1,
    ensures
        outcome_view(parsed) == getopts_parse(args.deep_view().skip(1)),
        (forall|i: int| 1 <= i < args.len() ==> !is_option_like(#[trigger] args@[i]@))
            ==> outcome_view(parsed) == only_free_arguments(args.deep_view().skip(1)),
{
    let mut rest: Vec<String> = Vec::new();
    let mut i: usize = 1;
    while i < args.len()
        invariant
            1 <= i <= args.len(),
            rest.deep_view() == args.deep_view().subrange(1, i as int),
            rest@ == args@.subrange(1, i as int),
        decreases args.len() - i,
    {
        rest.push(args[i].clone());
        assert(rest.deep_view() =~= args.deep_view().subrange(1, i + 1));
        assert(rest@ =~= args@.subrange(1, i + 1));
        i = i + 1;
    }
    assert(args.deep_view().subrange(1, args.len() as int) =~= args.deep_view().skip(1));
    assert(forall|k: int| 0 <= k < rest.len() ==> #[trigger] rest@[k] == args@[k + 1]);
    let (parsed, _) = read_with_getopts(&rest, "");
    parsed
}

/// The brief that heads the help text.
pub open spec fn usage_brief() -> Seq<char> {
    "Usage: install [OPTION]... [-T] SOURCE DEST
  or:  install [OPTION]... SOURCE... DIRECTORY
  or:  install [OPTION]... -t DIRECTORY SOURCE...
  or:  install [OPTION]... -d DIRECTORY...
    "@
}

/// The help text: the usage brief, then a row for each option.
pub fn usage_message() -> (text: String)
    ensures
        text@ == usage_brief() + option_rows(),
{
    let none: Vec<String> = Vec::new();
    let (_, text) = read_with_getopts(&none, "Usage: install [OPTION]... [-T] SOURCE DEST
  or:  install [OPTION]... SOURCE... DIRECTORY
  or:  install [OPTION]... -t DIRECTORY SOURCE...
  or:  install [OPTION]... -d DIRECTORY...
    ");
    text
}

} // verus!
