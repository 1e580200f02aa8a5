//! Command-line arguments.
use crate::text::views;
use vstd::prelude::*;
use vstd::string::*;

verus! {

/// What the arguments ask for.
#[derive(Debug)]
pub struct Options {
    /// The directory with the resources.
    pub src: String,
    /// The directory that they are copied to.
    pub dst: String,
    /// A Lua program that runs before every manifest.
    pub loader: Option<String>,
    /// Whether the time that each step takes is told.
    pub timings: bool,
    /// Whether progress is not told.
    pub quiet: bool,
    /// Whether what is in `dst` is used as it is.
    pub no_clone: bool,
}

/// What is wrong with the arguments.
#[derive(Debug)]
pub enum ArgumentError {
    /// The option takes a value, and the arguments end.
    MissingValue(String),
    /// There is no such option.
    Unknown(String),
    /// There is a directory already.
    Extra(String),
    /// There is no directory.
    MissingDirectory,
}

/// What to do.
#[derive(Debug)]
pub enum Command {
    Run(Options),
    Help,
    Fail(ArgumentError),
}

/// Options as far as they are known.
pub struct Known {
    pub src: Option<Seq<char>>,
    pub dst: Seq<char>,
    pub loader: Option<Seq<char>>,
    pub timings: bool,
    pub quiet: bool,
    pub no_clone: bool,
}

/// What the arguments come to.
pub enum Meaning {
    Run(Known),
    Help,
    MissingValue(Seq<char>),
    Unknown(Seq<char>),
    Extra(Seq<char>),
    MissingDirectory,
}

/// The options before any argument.
pub open spec fn defaults() -> Known {
    Known {
        src: None,
        dst: "./scrambled_resources"@,
        loader: None,
        timings: false,
        quiet: false,
        no_clone: false,
    }
}

/// What the arguments from position `i` on come to. They are read from left to right; the first
/// that asks for help or is wrong decides.
pub open spec fn meaning(args: Seq<Seq<char>>, i: int, known: Known) -> Meaning
    decreases args.len() - i,
{
    if i >= args.len() {
        if known.src is Some {
            Meaning::Run(known)
        } else {
            Meaning::MissingDirectory
        }
    } else if args[i] == "--dst"@ || args[i] == "--loader"@ {
        if i + 1 >= args.len() {
            Meaning::MissingValue(args[i])
        } else if args[i] == "--dst"@ {
            meaning(args, i + 2, Known { dst: args[i + 1], ..known })
        } else {
            meaning(args, i + 2, Known { loader: Some(args[i + 1]), ..known })
        }
    } else if args[i] == "--timings"@ {
        meaning(args, i + 1, Known { timings: true, ..known })
    } else if args[i] == "--quiet"@ || args[i] == "-q"@ {
        meaning(args, i + 1, Known { quiet: true, ..known })
    } else if args[i] == "--no-clone"@ {
        meaning(args, i + 1, Known { no_clone: true, ..known })
    } else if args[i] == "-h"@ || args[i] == "--help"@ {
        Meaning::Help
    } else if args[i].len() > 0 && args[i][0] == '-' {
        Meaning::Unknown(args[i])
    } else if known.src is Some {
        Meaning::Extra(args[i])
    } else {
        meaning(args, i + 1, Known { src: Some(args[i]), ..known })
    }
}

impl View for Command {
    type V = Meaning;

    open spec fn view(&self) -> Meaning {
        match self {
            Command::Run(options) => Meaning::Run(
                Known {
                    src: Some(options.src@),
                    dst: options.dst@,
                    loader: optional(options.loader),
                    timings: options.timings,
                    quiet: options.quiet,
                    no_clone: options.no_clone,
                },
            ),
            Command::Help => Meaning::Help,
            Command::Fail(ArgumentError::MissingValue(arg)) => Meaning::MissingValue(arg@),
            Command::Fail(ArgumentError::Unknown(arg)) => Meaning::Unknown(arg@),
            Command::Fail(ArgumentError::Extra(arg)) => Meaning::Extra(arg@),
            Command::Fail(ArgumentError::MissingDirectory) => Meaning::MissingDirectory,
        }
    }
}

/// The text of an optional string.
pub open spec fn optional(text: Option<String>) -> Option<Seq<char>> {
    match text {
        Some(text) => Some(text@),
        None => None,
    }
}

/// Whether an argument is the given one.
fn is(arg: &String, text: &str) -> (r: bool)
    ensures
        r == (arg@ == text@),
{
    *arg == text.to_owned()
}

/// Reads the arguments that follow the name of the program.
pub fn parse_args(args: &Vec<String>) -> (r: Command)
    ensures
        r@ == meaning(views(args@), 0, defaults()),
{
    let ghost all = views(args@);
    let mut src: Option<String> = None;
    let mut dst: String = "./scrambled_resources".to_owned();
    let mut loader: Option<String> = None;
    let mut timings = false;
    let mut quiet = false;
    let mut no_clone = false;
    let mut i: usize = 0;
    while i < args.len()
        invariant
            all == views(args@),
            i <= args.len(),
            meaning(all, 0, defaults()) == meaning(
                all,
                i as int,
                Known {
                    src: optional(src),
                    dst: dst@,
                    loader: optional(loader),
                    timings,
                    quiet,
                    no_clone,
                },
            ),
        decreases args.len() - i,
    {
        let arg: &String = &args[i];
        assert(all[i as int] == arg@);
        if is(arg, "--dst") || is(arg, "--loader") {
            if args.len() - i < 2 {
                return Command::Fail(ArgumentError::MissingValue(arg.clone()));
            }
            assert(all[i + 1] == args@[i + 1]@);
            if is(arg, "--dst") {
                dst = args[i + 1].clone();
            } else {
                loader = Some(args[i + 1].clone());
            }
            i += 2;
        } else if is(arg, "--timings") {
            timings = true;
            i += 1;
        } else if is(arg, "--quiet") || is(arg, "-q") {
            quiet = true;
            i += 1;
        } else if is(arg, "--no-clone") {
            no_clone = true;
            i += 1;
        } else if is(arg, "-h") || is(arg, "--help") {
            return Command::Help;
        } else if arg.as_str().unicode_len() > 0 && arg.as_str().get_char(0) == '-' {
            return Command::Fail(ArgumentError::Unknown(arg.clone()));
        } else if src.is_some() {
            return Command::Fail(ArgumentError::Extra(arg.clone()));
        } else {
            src = Some(arg.clone());
            i += 1;
        }
    }
    match src {
        Some(src) => Command::Run(Options { src, dst, loader, timings, quiet, no_clone }),
        None => Command::Fail(ArgumentError::MissingDirectory),
    }
}

/// What is told of an error.
pub open spec fn complaint(error: ArgumentError) -> Seq<char> {
    match error {
        ArgumentError::MissingValue(arg) => "error: "@ + arg@ + " requires a value"@,
        ArgumentError::Unknown(arg) => "unknown argument: "@ + arg@,
        ArgumentError::Extra(arg) => "error: extra positional argument: "@ + arg@,
        ArgumentError::MissingDirectory => "error: missing <resources-dir>\n"@,
    }
}

impl ArgumentError {
    /// What is told of the error.
    pub fn message(&self) -> (r: String)
        ensures
            r@ == complaint(*self),
    {
        match self {
            ArgumentError::MissingValue(arg) => {
                let mut r: String = "error: ".to_owned();
                r.append(arg.as_str());
                r.append(" requires a value");
                r
            },
            ArgumentError::Unknown(arg) => {
                let mut r: String = "unknown argument: ".to_owned();
                r.append(arg.as_str());
                r
            },
            ArgumentError::Extra(arg) => {
                let mut r: String = "error: extra positional argument: ".to_owned();
                r.append(arg.as_str());
                r
            },
            ArgumentError::MissingDirectory => "error: missing <resources-dir>\n".to_owned(),
        }
    }

    /// Whether the usage is shown below the message.
    pub fn shows_usage(&self) -> (r: bool)
        ensures
            r == !(self is MissingValue),
    {
        match self {
            ArgumentError::MissingValue(_) => false,
            _ => true,
        }
    }
}

/// What is done before the resources are looked at.
#[derive(Clone, Copy, PartialEq, Eq, Structural, Debug)]
pub enum Preparation {
    /// There is nothing to start from.
    SourceMissing,
    /// The copy that was to be used is not there.
    CopyMissing,
    /// The copy is used as it is.
    Reuse,
    /// A copy is made, after one from before is removed.
    Replace,
    /// A copy is made.
    Copy,
}

/// What is to be done, by what is there.
pub fn prepare(src_exists: bool, dst_exists: bool, no_clone: bool) -> (r: Preparation)
    ensures
        r is SourceMissing <==> !src_exists,
        r is CopyMissing <==> src_exists && no_clone && !dst_exists,
        r is Reuse <==> src_exists && no_clone && dst_exists,
        r is Replace <==> src_exists && !no_clone && dst_exists,
        r is Copy <==> src_exists && !no_clone && !dst_exists,
{
    if !src_exists {
        Preparation::SourceMissing
    } else if no_clone {
        if dst_exists {
            Preparation::Reuse
        } else {
            Preparation::CopyMissing
        }
    } else if dst_exists {
        Preparation::Replace
    } else {
        Preparation::Copy
    }
}

} // verus!
