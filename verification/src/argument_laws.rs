//! What holds of command-line arguments, and of durations.
use crate::cli::{
    complaint, defaults, meaning, ArgumentError, Command, Known, Meaning, Options,
};
use crate::timer::sum;
use vstd::prelude::*;

verus! {

/// Arguments are read from left to right: what some come to depends on those before them only by
/// what is known from these.
pub proof fn law_arguments_are_read_in_order(args: Seq<Seq<char>>, i: int, known: Known)
    requires
        0 <= i <= args.len(),
    ensures
        meaning(args, i, known) == meaning(args.skip(i), 0, known),
{
    lemma_shift(args, i, 0, known);
}

proof fn lemma_shift(args: Seq<Seq<char>>, i: int, j: int, known: Known)
    requires
        0 <= i <= args.len(),
        0 <= j,
    ensures
        meaning(args, i + j, known) == meaning(args.skip(i), j, known),
    decreases args.len() - i - j,
{
    let rest = args.skip(i);
    if i + j < args.len() {
        assert(rest[j] == args[i + j]);
        if i + j + 1 < args.len() {
            assert(rest[j + 1] == args[i + j + 1]);
        }
        let arg = args[i + j];
        if arg == "--dst"@ || arg == "--loader"@ {
            if i + j + 1 < args.len() {
                let value = args[i + j + 1];
                lemma_shift(args, i, j + 2, Known { dst: value, ..known });
                lemma_shift(args, i, j + 2, Known { loader: Some(value), ..known });
            }
        } else {
            lemma_shift(args, i, j + 1, Known { timings: true, ..known });
            lemma_shift(args, i, j + 1, Known { quiet: true, ..known });
            lemma_shift(args, i, j + 1, Known { no_clone: true, ..known });
            lemma_shift(args, i, j + 1, Known { src: Some(arg), ..known });
        }
    }
}

proof fn lemma_options_differ()
    ensures
        "--dst"@ != "--loader"@,
        "--dst"@ != "--timings"@,
        "--dst"@ != "--quiet"@,
        "--dst"@ != "-q"@,
        "--dst"@ != "--no-clone"@,
        "--dst"@ != "-h"@,
        "--dst"@ != "--help"@,
        "--loader"@ != "--timings"@,
        "--loader"@ != "--quiet"@,
        "--loader"@ != "-q"@,
        "--loader"@ != "--no-clone"@,
        "--loader"@ != "-h"@,
        "--loader"@ != "--help"@,
        "--timings"@ != "--quiet"@,
        "--timings"@ != "-q"@,
        "--timings"@ != "--no-clone"@,
        "--timings"@ != "-h"@,
        "--timings"@ != "--help"@,
        "--quiet"@ != "-q"@,
        "--quiet"@ != "--no-clone"@,
        "--quiet"@ != "-h"@,
        "--quiet"@ != "--help"@,
        "-q"@ != "--no-clone"@,
        "-q"@ != "-h"@,
        "-q"@ != "--help"@,
        "--no-clone"@ != "-h"@,
        "--no-clone"@ != "--help"@,
        "-h"@ != "--help"@,
        "--dst"@.len() > 0 && "--dst"@[0] == '-',
        "--loader"@.len() > 0 && "--loader"@[0] == '-',
        "--timings"@.len() > 0 && "--timings"@[0] == '-',
        "--quiet"@.len() > 0 && "--quiet"@[0] == '-',
        "-q"@.len() > 0 && "-q"@[0] == '-',
        "--no-clone"@.len() > 0 && "--no-clone"@[0] == '-',
        "-h"@.len() > 0 && "-h"@[0] == '-',
        "--help"@.len() > 0 && "--help"@[0] == '-',
{
    reveal_strlit("--dst");
    reveal_strlit("--loader");
    reveal_strlit("--timings");
    reveal_strlit("--quiet");
    reveal_strlit("-q");
    reveal_strlit("--no-clone");
    reveal_strlit("-h");
    reveal_strlit("--help");
    assert("--dst"@.len() != "--loader"@.len());
    assert("--dst"@.len() != "--timings"@.len());
    assert("--dst"@.len() != "--quiet"@.len());
    assert("--dst"@.len() != "-q"@.len());
    assert("--dst"@.len() != "--no-clone"@.len());
    assert("--dst"@.len() != "-h"@.len());
    assert("--dst"@.len() != "--help"@.len());
    assert("--loader"@.len() != "--timings"@.len());
    assert("--loader"@.len() != "--quiet"@.len());
    assert("--loader"@.len() != "-q"@.len());
    assert("--loader"@.len() != "--no-clone"@.len());
    assert("--loader"@.len() != "-h"@.len());
    assert("--loader"@.len() != "--help"@.len());
    assert("--timings"@.len() != "--quiet"@.len());
    assert("--timings"@.len() != "-q"@.len());
    assert("--timings"@.len() != "--no-clone"@.len());
    assert("--timings"@.len() != "-h"@.len());
    assert("--timings"@.len() != "--help"@.len());
    assert("--quiet"@.len() != "-q"@.len());
    assert("--quiet"@.len() != "--no-clone"@.len());
    assert("--quiet"@.len() != "-h"@.len());
    assert("--quiet"@.len() != "--help"@.len());
    assert("-q"@.len() != "--no-clone"@.len());
    assert("-q"@[1] != "-h"@[1]);
    assert("-q"@.len() != "--help"@.len());
    assert("--no-clone"@.len() != "-h"@.len());
    assert("--no-clone"@.len() != "--help"@.len());
    assert("-h"@.len() != "--help"@.len());
}

/// Each option does one thing, wherever it stands, and the arguments behind it go on from there.
/// One that takes a value takes the next argument. Help is given at once.
pub proof fn law_options(rest: Seq<Seq<char>>, value: Seq<char>, known: Known)
    ensures
        meaning(seq!["--timings"@] + rest, 0, known) == meaning(
            rest,
            0,
            Known { timings: true, ..known },
        ),
        meaning(seq!["--quiet"@] + rest, 0, known) == meaning(
            rest,
            0,
            Known { quiet: true, ..known },
        ),
        meaning(seq!["-q"@] + rest, 0, known) == meaning(rest, 0, Known { quiet: true, ..known }),
        meaning(seq!["--no-clone"@] + rest, 0, known) == meaning(
            rest,
            0,
            Known { no_clone: true, ..known },
        ),
        meaning(seq!["--dst"@, value] + rest, 0, known) == meaning(
            rest,
            0,
            Known { dst: value, ..known },
        ),
        meaning(seq!["--loader"@, value] + rest, 0, known) == meaning(
            rest,
            0,
            Known { loader: Some(value), ..known },
        ),
        meaning(seq!["--dst"@], 0, known) == Meaning::MissingValue("--dst"@),
        meaning(seq!["--loader"@], 0, known) == Meaning::MissingValue("--loader"@),
        meaning(seq!["-h"@] + rest, 0, known) == Meaning::Help,
        meaning(seq!["--help"@] + rest, 0, known) == Meaning::Help,
{
    lemma_options_differ();
    lemma_one(seq!["--timings"@] + rest, "--timings"@, rest, Known { timings: true, ..known });
    lemma_one(seq!["--quiet"@] + rest, "--quiet"@, rest, Known { quiet: true, ..known });
    lemma_one(seq!["-q"@] + rest, "-q"@, rest, Known { quiet: true, ..known });
    lemma_one(seq!["--no-clone"@] + rest, "--no-clone"@, rest, Known { no_clone: true, ..known });
    lemma_two(seq!["--dst"@, value] + rest, "--dst"@, value, rest, Known { dst: value, ..known });
    lemma_two(
        seq!["--loader"@, value] + rest,
        "--loader"@,
        value,
        rest,
        Known { loader: Some(value), ..known },
    );
    assert(seq!["--dst"@][0] == "--dst"@);
    assert(seq!["--loader"@][0] == "--loader"@);
    assert((seq!["-h"@] + rest)[0] == "-h"@);
    assert((seq!["--help"@] + rest)[0] == "--help"@);
}

proof fn lemma_one(args: Seq<Seq<char>>, arg: Seq<char>, rest: Seq<Seq<char>>, known: Known)
    requires
        args == seq![arg] + rest,
    ensures
        args.len() == rest.len() + 1,
        args[0] == arg,
        meaning(args, 1, known) == meaning(rest, 0, known),
{
    law_arguments_are_read_in_order(args, 1, known);
    assert(args.skip(1) =~= rest);
}

proof fn lemma_two(
    args: Seq<Seq<char>>,
    arg: Seq<char>,
    value: Seq<char>,
    rest: Seq<Seq<char>>,
    known: Known,
)
    requires
        args == seq![arg, value] + rest,
    ensures
        args.len() == rest.len() + 2,
        args[0] == arg,
        args[1] == value,
        meaning(args, 2, known) == meaning(rest, 0, known),
{
    law_arguments_are_read_in_order(args, 2, known);
    assert(args.skip(2) =~= rest);
}

/// An argument that is no option is the directory with the resources, of which there is one. What
/// begins with a hyphen is an option, or wrong.
pub proof fn law_other_arguments(arg: Seq<char>, rest: Seq<Seq<char>>, known: Known)
    ensures
        !(arg.len() > 0 && arg[0] == '-') && known.src is None ==> meaning(
            seq![arg] + rest,
            0,
            known,
        ) == meaning(rest, 0, Known { src: Some(arg), ..known }),
        !(arg.len() > 0 && arg[0] == '-') && known.src is Some ==> meaning(
            seq![arg] + rest,
            0,
            known,
        ) == Meaning::Extra(arg),
        arg.len() > 0 && arg[0] == '-' && arg != "--dst"@ && arg != "--loader"@ && arg
            != "--timings"@ && arg != "--quiet"@ && arg != "-q"@ && arg != "--no-clone"@ && arg
            != "-h"@ && arg != "--help"@ ==> meaning(seq![arg] + rest, 0, known)
            == Meaning::Unknown(arg),
        meaning(Seq::empty(), 0, known) == if known.src is Some {
            Meaning::Run(known)
        } else {
            Meaning::MissingDirectory
        },
{
    lemma_options_differ();
    lemma_one(seq![arg] + rest, arg, rest, Known { src: Some(arg), ..known });
}

/// Without arguments nothing is known but where the copy goes.
pub proof fn law_defaults()
    ensures
        defaults().src is None,
        defaults().dst == "./scrambled_resources"@,
        defaults().loader is None,
        !defaults().timings && !defaults().quiet && !defaults().no_clone,
{
}

/// What a command holds is what the arguments came to.
pub proof fn law_commands(options: Options, arg: String)
    ensures
        Command::Run(options)@ == Meaning::Run(
            Known {
                src: Some(options.src@),
                dst: options.dst@,
                loader: match options.loader {
                    Some(path) => Some(path@),
                    None => None,
                },
                timings: options.timings,
                quiet: options.quiet,
                no_clone: options.no_clone,
            },
        ),
        Command::Help@ == Meaning::Help,
        Command::Fail(ArgumentError::MissingValue(arg))@ == Meaning::MissingValue(arg@),
        Command::Fail(ArgumentError::Unknown(arg))@ == Meaning::Unknown(arg@),
        Command::Fail(ArgumentError::Extra(arg))@ == Meaning::Extra(arg@),
        Command::Fail(ArgumentError::MissingDirectory)@ == Meaning::MissingDirectory,
{
}

/// A message names what is wrong and the argument.
pub proof fn law_messages(arg: String)
    ensures
        complaint(ArgumentError::MissingValue(arg)) == "error: "@ + arg@ + " requires a value"@,
        complaint(ArgumentError::Unknown(arg)) == "unknown argument: "@ + arg@,
        complaint(ArgumentError::Extra(arg)) == "error: extra positional argument: "@ + arg@,
        complaint(ArgumentError::MissingDirectory) == "error: missing <resources-dir>\n"@,
{
}

/// The sum of two lists is that of their sums, and that of one number is the number.
pub proof fn law_sum(a: Seq<u128>, b: Seq<u128>, x: u128)
    ensures
        sum(a + b) == sum(a) + sum(b),
        sum(seq![x]) == x,
        sum(Seq::empty()) == 0,
    decreases b.len(),
{
    reveal_with_fuel(sum, 2);
    assert(seq![x].drop_last() =~= Seq::<u128>::empty());
    if b.len() > 0 {
        law_sum(a, b.drop_last(), x);
        assert((a + b).drop_last() =~= a + b.drop_last());
    } else {
        assert(a + b =~= a);
    }
}

} // verus!
