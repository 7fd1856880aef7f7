//! The command line.

use crate::text;
use crate::text::Digits;
use vstd::prelude::*;
use vstd::string::*;

verus! {

// ---- commands ----

#[derive(Clone, Copy, PartialEq, Eq, Structural)]
pub enum Command {
    Create,
    Extract,
    List,
    Test,
    Help,
    Version,
}

pub open spec fn command_of(name: Seq<char>) -> Option<Command> {
    if name == "c"@ || name == "create"@ {
        Some(Command::Create)
    } else if name == "x"@ || name == "extract"@ {
        Some(Command::Extract)
    } else if name == "l"@ || name == "list"@ {
        Some(Command::List)
    } else if name == "t"@ || name == "test"@ {
        Some(Command::Test)
    } else if name == "h"@ || name == "help"@ || name == "-h"@ || name == "--help"@ {
        Some(Command::Help)
    } else if name == "v"@ || name == "version"@ || name == "-V"@ || name == "--version"@ {
        Some(Command::Version)
    } else {
        None
    }
}

/// The text is the literal.
fn is(a: &String, literal: &str) -> (r: bool)
    ensures
        r == (a@ == literal@),
{
    let b = literal.to_string();
    *a == b
}

/// The command of that name.
pub fn parse_command(name: &String) -> (r: Option<Command>)
    ensures
        r == command_of(name@),
{
    if is(name, "c") || is(name, "create") {
        Some(Command::Create)
    } else if is(name, "x") || is(name, "extract") {
        Some(Command::Extract)
    } else if is(name, "l") || is(name, "list") {
        Some(Command::List)
    } else if is(name, "t") || is(name, "test") {
        Some(Command::Test)
    } else if is(name, "h") || is(name, "help") || is(name, "-h") || is(name, "--help") {
        Some(Command::Help)
    } else if is(name, "v") || is(name, "version") || is(name, "-V") || is(name, "--version") {
        Some(Command::Version)
    } else {
        None
    }
}

/// What is said where a command has too few arguments: an archive, and files to put into it.
pub open spec fn usage_fault(c: Command, positionals: nat) -> Option<Seq<char>> {
    match c {
        Command::Create => if positionals < 2 {
            Some("usage: bounce create <archive.bnc> <files...>"@)
        } else {
            None
        },
        Command::Extract => if positionals == 0 {
            Some("usage: bounce extract <archive.bnc> [files...]"@)
        } else {
            None
        },
        Command::List => if positionals == 0 {
            Some("usage: bounce list <archive.bnc>"@)
        } else {
            None
        },
        Command::Test => if positionals == 0 {
            Some("usage: bounce test <archive.bnc>"@)
        } else {
            None
        },
        _ => None,
    }
}

/// Says how a command is used where it has too few arguments.
pub fn check_usage(c: Command, positionals: usize) -> (r: Result<(), String>)
    ensures
        match (r, usage_fault(c, positionals as nat)) {
            (Ok(_), None) => true,
            (Err(e), Some(m)) => e@ == m,
            _ => false,
        },
{
    match c {
        Command::Create => {
            if positionals < 2 {
                return Err("usage: bounce create <archive.bnc> <files...>".to_string());
            }
        },
        Command::Extract => {
            if positionals == 0 {
                return Err("usage: bounce extract <archive.bnc> [files...]".to_string());
            }
        },
        Command::List => {
            if positionals == 0 {
                return Err("usage: bounce list <archive.bnc>".to_string());
            }
        },
        Command::Test => {
            if positionals == 0 {
                return Err("usage: bounce test <archive.bnc>".to_string());
            }
        },
        _ => {},
    }
    Ok(())
}

// ---- options ----

pub struct Options {
    pub output: String,
    pub to_stdout: bool,
    pub force: bool,
    pub verbose: bool,
    pub quiet: bool,
    pub level: u8,
    pub positionals: Vec<String>,
}

/// Options with their texts.
pub struct Opts {
    pub output: Seq<char>,
    pub to_stdout: bool,
    pub force: bool,
    pub verbose: bool,
    pub quiet: bool,
    pub level: u8,
    pub positionals: Seq<Seq<char>>,
}

impl View for Options {
    type V = Opts;

    open spec fn view(&self) -> Opts {
        Opts {
            output: self.output@,
            to_stdout: self.to_stdout,
            force: self.force,
            verbose: self.verbose,
            quiet: self.quiet,
            level: self.level,
            positionals: text::texts_of(self.positionals@),
        }
    }
}

/// The options where none is given: the current directory, and level 1.
pub open spec fn default_options() -> Opts {
    Opts {
        output: "."@,
        to_stdout: false,
        force: false,
        verbose: false,
        quiet: false,
        level: 1,
        positionals: Seq::empty(),
    }
}

/// What an argument is.
pub enum Arg {
    /// The directory follows.
    Output,
    Force,
    Stdout,
    Verbose,
    Quiet,
    /// A level by its number, which may be too large.
    Level(nat),
    Unknown,
    Positional,
}

pub open spec fn arg_of(a: Seq<char>) -> Arg {
    if a == "-o"@ || a == "--output"@ {
        Arg::Output
    } else if a == "-f"@ || a == "--force"@ {
        Arg::Force
    } else if a == "-c"@ || a == "--stdout"@ {
        Arg::Stdout
    } else if a == "-v"@ || a == "--verbose"@ {
        Arg::Verbose
    } else if a == "-q"@ || a == "--quiet"@ {
        Arg::Quiet
    } else if a.len() > 1 && a[0] == '-' {
        if text::all_digits(a.skip(1)) {
            Arg::Level(text::value_of(a.skip(1)))
        } else {
            Arg::Unknown
        }
    } else {
        Arg::Positional
    }
}

/// The options with one more argument taken in; `next` is the argument behind it.
pub open spec fn with_arg(o: Opts, a: Seq<char>, next: Option<Seq<char>>) -> Result<
    Opts,
    Seq<char>,
> {
    match arg_of(a) {
        Arg::Output => match next {
            None => Err("missing value for --output"@),
            Some(dir) => Ok(Opts { output: dir, ..o }),
        },
        Arg::Force => Ok(Opts { force: true, ..o }),
        Arg::Stdout => Ok(Opts { to_stdout: true, ..o }),
        Arg::Verbose => Ok(Opts { verbose: true, ..o }),
        Arg::Quiet => Ok(Opts { quiet: true, ..o }),
        Arg::Level(n) => if n > 255 {
            Err("invalid compression level: "@ + a)
        } else if n == 0 {
            Err("level must be >= 1"@)
        } else {
            Ok(Opts { level: n as u8, ..o })
        },
        Arg::Unknown => Err("unknown option: "@ + a),
        Arg::Positional => Ok(Opts { positionals: o.positionals.push(a), ..o }),
    }
}

/// The options with the arguments from the `i`-th on taken in.
pub open spec fn options_from(args: Seq<Seq<char>>, i: nat, o: Opts) -> Result<Opts, Seq<char>>
    decreases args.len() - i,
{
    if i >= args.len() {
        Ok(o)
    } else {
        let next = if i + 1 < args.len() {
            Some(args[i as int + 1])
        } else {
            None
        };
        match with_arg(o, args[i as int], next) {
            Err(m) => Err(m),
            Ok(p) => options_from(
                args,
                if arg_of(args[i as int]) is Output {
                    i + 2
                } else {
                    i + 1
                },
                p,
            ),
        }
    }
}

/// Reads the options of a command.
pub fn parse_options(args: &[String]) -> (r: Result<Options, String>)
    ensures
        match (r, options_from(text::texts_of(args@), 0, default_options())) {
            (Ok(o), Ok(want)) => o@ == want,
            (Err(e), Err(m)) => e@ == m,
            _ => false,
        },
{
    let ghost all = text::texts_of(args@);
    let ghost want = options_from(all, 0, default_options());
    let mut opts = Options {
        output: ".".to_string(),
        to_stdout: false,
        force: false,
        verbose: false,
        quiet: false,
        level: 1,
        positionals: Vec::new(),
    };
    let n: usize = args.len();
    let mut i: usize = 0;
    assert(opts@.positionals =~= default_options().positionals);
    while i < n
        invariant
            n == args@.len(),
            i <= n,
            all == text::texts_of(args@),
            want == options_from(all, 0, default_options()),
            want == options_from(all, i as nat, opts@),
        decreases n - i,
    {
        let a = &args[i];
        assert(all[i as int] == a@);
        if is(a, "-o") || is(a, "--output") {
            if i + 1 >= n {
                return Err("missing value for --output".to_string());
            }
            assert(all[i + 1] == args@[i + 1]@);
            opts.output = args[i + 1].clone();
            i += 1;
        } else if is(a, "-f") || is(a, "--force") {
            opts.force = true;
        } else if is(a, "-c") || is(a, "--stdout") {
            opts.to_stdout = true;
        } else if is(a, "-v") || is(a, "--verbose") {
            opts.verbose = true;
        } else if is(a, "-q") || is(a, "--quiet") {
            opts.quiet = true;
        } else {
            let cs = text::chars_of(a.as_str());
            if cs.len() > 1 && cs[0] == '-' {
                let level: u64 = match text::parse_digits(&cs, 1, cs.len()) {
                    Digits::Other => {
                        let mut s = "unknown option: ".to_string();
                        s.append(a.as_str());
                        return Err(s);
                    },
                    Digits::TooLarge => 256,
                    Digits::Number(n) => n,
                };
                assert(cs@.subrange(1, cs@.len() as int) =~= a@.skip(1));
                if level > 255 {
                    let mut s = "invalid compression level: ".to_string();
                    s.append(a.as_str());
                    return Err(s);
                }
                if level == 0 {
                    return Err("level must be >= 1".to_string());
                }
                opts.level = level as u8;
            } else {
                let ghost before = opts@.positionals;
                opts.positionals.push(a.clone());
                assert(opts@.positionals =~= before.push(a@));
            }
        }
        i += 1;
    }
    Ok(opts)
}

// ---- what the arguments say ----

/// None of the arguments asks for a directory.
pub open spec fn no_output(args: Seq<Seq<char>>) -> bool {
    !args.contains("-o"@) && !args.contains("--output"@)
}

/// An argument that is no option: it does not start with a dash, or is one.
pub open spec fn is_plain(a: Seq<char>) -> bool {
    a.len() <= 1 || a[0] != '-'
}

proof fn lemma_option_texts()
    ensures
        !is_plain("-o"@),
        !is_plain("--output"@),
        !is_plain("-f"@),
        !is_plain("--force"@),
        !is_plain("-c"@),
        !is_plain("--stdout"@),
        !is_plain("-v"@),
        !is_plain("--verbose"@),
        !is_plain("-q"@),
        !is_plain("--quiet"@),
        "-f"@ != "-c"@ && "-f"@ != "-v"@ && "-f"@ != "-q"@ && "-f"@ != "-o"@,
        "-c"@ != "-v"@ && "-c"@ != "-q"@ && "-c"@ != "-o"@,
        "-v"@ != "-q"@ && "-v"@ != "-o"@ && "-q"@ != "-o"@,
        "--force"@ != "--stdout"@ && "--force"@ != "--verbose"@ && "--force"@ != "--quiet"@,
        "--force"@ != "--output"@ && "--stdout"@ != "--verbose"@ && "--stdout"@ != "--quiet"@,
        "--stdout"@ != "--output"@ && "--verbose"@ != "--quiet"@ && "--verbose"@ != "--output"@,
        "--quiet"@ != "--output"@,
        "-o"@.len() == 2 && "-f"@.len() == 2 && "-c"@.len() == 2 && "-v"@.len() == 2 && "-q"@.len()
            == 2,
        "--output"@.len() > 2 && "--force"@.len() > 2 && "--stdout"@.len() > 2 && "--verbose"@.len()
            > 2 && "--quiet"@.len() > 2,
{
    reveal_strlit("-o");
    reveal_strlit("--output");
    reveal_strlit("-f");
    reveal_strlit("--force");
    reveal_strlit("-c");
    reveal_strlit("--stdout");
    reveal_strlit("-v");
    reveal_strlit("--verbose");
    reveal_strlit("-q");
    reveal_strlit("--quiet");
    assert("-f"@[1] == 'f' && "-c"@[1] == 'c' && "-v"@[1] == 'v' && "-q"@[1] == 'q' && "-o"@[1]
        == 'o');
    assert("--force"@[2] == 'f' && "--stdout"@[2] == 's' && "--verbose"@[2] == 'v' && "--quiet"@[2]
        == 'q' && "--output"@[2] == 'o');
}

/// Some argument is one of two texts.
pub open spec fn has_either(args: Seq<Seq<char>>, a: Seq<char>, b: Seq<char>) -> bool {
    args.contains(a) || args.contains(b)
}

proof fn lemma_has_front(args: Seq<Seq<char>>, a: Seq<char>)
    requires
        args.len() > 0,
    ensures
        args.contains(a) <==> args[0] == a || args.skip(1).contains(a),
{
    let rest = args.skip(1);
    if args.contains(a) && args[0] != a {
        let k = choose|k: int| 0 <= k < args.len() && args[k] == a;
        assert(rest[k - 1] == a);
    }
    if rest.contains(a) {
        let k = choose|k: int| 0 <= k < rest.len() && rest[k] == a;
        assert(args[k + 1] == a);
    }
}

/// The options from the `i`-th argument on are those of the arguments behind it.
proof fn lemma_options_skip(args: Seq<Seq<char>>, i: nat, j: nat, o: Opts)
    requires
        i + j <= args.len(),
    ensures
        options_from(args, i + j, o) == options_from(args.skip(i as int), j, o),
    decreases args.len() - i - j,
{
    let rest = args.skip(i as int);
    if i + j < args.len() {
        let k = i + j;
        assert(rest[j as int] == args[k as int]);
        let next = if k + 1 < args.len() {
            Some(args[k as int + 1])
        } else {
            None
        };
        assert(k + 1 < args.len() ==> rest[j as int + 1] == args[k as int + 1]);
        match with_arg(o, args[k as int], next) {
            Err(m) => {},
            Ok(p) => {
                if arg_of(args[k as int]) is Output {
                    if k + 2 <= args.len() {
                        lemma_options_skip(args, i, j + 2, p);
                    }
                } else {
                    lemma_options_skip(args, i, j + 1, p);
                }
            },
        }
    }
}

/// Without a directory, options are read one argument after the other.
proof fn lemma_options_front(args: Seq<Seq<char>>, o: Opts)
    requires
        args.len() > 0,
        no_output(args),
    ensures
        options_from(args, 0, o) == match with_arg(o, args[0], None) {
            Err(m) => Err(m),
            Ok(p) => options_from(args.skip(1), 0, p),
        },
        no_output(args.skip(1)),
{
    lemma_has_front(args, "-o"@);
    lemma_has_front(args, "--output"@);
    let next = if 1 < args.len() {
        Some(args[1])
    } else {
        None
    };
    match with_arg(o, args[0], next) {
        Err(m) => {},
        Ok(p) => {
            lemma_options_skip(args, 1, 0, p);
        },
    }
}

proof fn lemma_plain_front(args: Seq<Seq<char>>)
    requires
        args.len() > 0,
    ensures
        args.filter(|a: Seq<char>| is_plain(a)) == if is_plain(args[0]) {
            seq![args[0]] + args.skip(1).filter(|a: Seq<char>| is_plain(a))
        } else {
            args.skip(1).filter(|a: Seq<char>| is_plain(a))
        },
{
    let rest = args.skip(1);
    assert(args =~= seq![args[0]] + rest);
    rest.lemma_filter_prepend(args[0], |a: Seq<char>| is_plain(a));
    assert(Seq::<Seq<char>>::empty() + rest.filter(|a: Seq<char>| is_plain(a)) =~= rest.filter(
        |a: Seq<char>| is_plain(a),
    ));
}

proof fn lemma_flags_from(args: Seq<Seq<char>>, o: Opts)
    requires
        no_output(args),
        options_from(args, 0, o) is Ok,
    ensures
        ({
            let r = options_from(args, 0, o)->Ok_0;
            &&& r.force == (o.force || has_either(args, "-f"@, "--force"@))
            &&& r.to_stdout == (o.to_stdout || has_either(args, "-c"@, "--stdout"@))
            &&& r.verbose == (o.verbose || has_either(args, "-v"@, "--verbose"@))
            &&& r.quiet == (o.quiet || has_either(args, "-q"@, "--quiet"@))
            &&& r.positionals == o.positionals + args.filter(|a: Seq<char>| is_plain(a))
            &&& r.output == o.output
        }),
    decreases args.len(),
{
    lemma_option_texts();
    if args.len() == 0 {
        reveal(Seq::filter);
        assert(o.positionals + args.filter(|a: Seq<char>| is_plain(a)) =~= o.positionals);
    } else {
        let a = args[0];
        let rest = args.skip(1);
        lemma_options_front(args, o);
        let p = with_arg(o, a, None)->Ok_0;
        lemma_flags_from(rest, p);
        lemma_plain_front(args);
        lemma_has_front(args, "-f"@);
        lemma_has_front(args, "--force"@);
        lemma_has_front(args, "-c"@);
        lemma_has_front(args, "--stdout"@);
        lemma_has_front(args, "-v"@);
        lemma_has_front(args, "--verbose"@);
        lemma_has_front(args, "-q"@);
        lemma_has_front(args, "--quiet"@);
        let more = rest.filter(|a: Seq<char>| is_plain(a));
        if is_plain(a) {
            assert(o.positionals.push(a) + more =~= o.positionals + (seq![a] + more));
        }
    }
}

/// A flag is set if and only if it is given, by either of its names and wherever it stands; what is
/// no option is kept in its order; and nothing else comes of them.
pub proof fn lemma_flags(args: Seq<Seq<char>>)
    requires
        no_output(args),
        options_from(args, 0, default_options()) is Ok,
    ensures
        ({
            let r = options_from(args, 0, default_options())->Ok_0;
            &&& r.force == has_either(args, "-f"@, "--force"@)
            &&& r.to_stdout == has_either(args, "-c"@, "--stdout"@)
            &&& r.verbose == has_either(args, "-v"@, "--verbose"@)
            &&& r.quiet == has_either(args, "-q"@, "--quiet"@)
            &&& r.positionals == args.filter(|a: Seq<char>| is_plain(a))
            &&& r.output == seq!['.']
        }),
{
    reveal_strlit(".");
    assert("."@ =~= seq!['.']);
    lemma_flags_from(args, default_options());
    let kept = args.filter(|a: Seq<char>| is_plain(a));
    assert(Seq::<Seq<char>>::empty() + kept =~= kept);
}

/// An argument that is refused: it starts with a dash, but is neither a flag nor a level from 1 to
/// 255.
pub open spec fn is_refused(a: Seq<char>) -> bool {
    &&& !is_plain(a)
    &&& a != "-f"@ && a != "--force"@ && a != "-c"@ && a != "--stdout"@
    &&& a != "-v"@ && a != "--verbose"@ && a != "-q"@ && a != "--quiet"@
    &&& !(text::all_digits(a.skip(1)) && 1 <= text::value_of(a.skip(1)) <= 255)
}

/// Arguments are refused if and only if one of them is.
pub proof fn lemma_refused(args: Seq<Seq<char>>, o: Opts)
    requires
        no_output(args),
    ensures
        options_from(args, 0, o) is Err <==> exists|k: int|
            0 <= k < args.len() && is_refused(#[trigger] args[k]),
    decreases args.len(),
{
    lemma_option_texts();
    if args.len() > 0 {
        let rest = args.skip(1);
        lemma_options_front(args, o);
        lemma_has_front(args, "-o"@);
        lemma_has_front(args, "--output"@);
        let r = with_arg(o, args[0], None);
        assert(r is Err <==> is_refused(args[0]));
        if r is Ok {
            lemma_refused(rest, r->Ok_0);
            if exists|k: int| 0 <= k < args.len() && is_refused(#[trigger] args[k]) {
                let k = choose|k: int| 0 <= k < args.len() && is_refused(#[trigger] args[k]);
                assert(rest[k - 1] == args[k]);
            }
            if exists|k: int| 0 <= k < rest.len() && is_refused(#[trigger] rest[k]) {
                let k = choose|k: int| 0 <= k < rest.len() && is_refused(#[trigger] rest[k]);
                assert(args[k + 1] == rest[k]);
            }
        }
    }
}

/// A directory is the argument behind `-o` or `--output`, whatever it is; the last one counts, and
/// the other arguments are read as they are without it.
pub proof fn lemma_output(dir: Seq<char>, rest: Seq<Seq<char>>, o: Opts, long: bool)
    ensures
        ({
            let name = if long {
                "--output"@
            } else {
                "-o"@
            };
            &&& options_from(seq![name, dir] + rest, 0, o) == options_from(
                rest,
                0,
                (Opts { output: dir, ..o }),
            )
            &&& options_from(seq![name], 0, o) is Err
        }),
{
    let name = if long {
        "--output"@
    } else {
        "-o"@
    };
    let args = seq![name, dir] + rest;
    assert(args[0] == name && args[1] == dir);
    assert(args.skip(2) =~= rest);
    lemma_options_skip(args, 2, 0, (Opts { output: dir, ..o }));
}

/// A dash and a number from 1 to 255 is a level. The last one counts.
pub proof fn lemma_level_given(n: nat, rest: Seq<Seq<char>>, o: Opts)
    requires
        1 <= n <= 255,
    ensures
        options_from(seq![seq!['-'] + text::dec(n)] + rest, 0, o) == options_from(
            rest,
            0,
            (Opts { level: n as u8, ..o }),
        ),
{
    let a = seq!['-'] + text::dec(n);
    let args = seq![a] + rest;
    text::lemma_dec(n);
    lemma_option_texts();
    lemma_number_is_level(n);
    assert(args[0] == a);
    assert(args.skip(1) =~= rest);
    lemma_options_skip(args, 1, 0, (Opts { level: n as u8, ..o }));
}

/// A level stays as it is where no argument is a dash and digits. Without arguments it is 1.
pub proof fn lemma_level_kept(args: Seq<Seq<char>>, o: Opts)
    requires
        no_output(args),
        options_from(args, 0, o) is Ok,
        forall|k: int|
            0 <= k < args.len() && !is_plain(#[trigger] args[k]) ==> !text::all_digits(
                args[k].skip(1),
            ),
    ensures
        options_from(args, 0, o)->Ok_0.level == o.level,
        default_options().level == 1,
    decreases args.len(),
{
    if args.len() > 0 {
        let rest = args.skip(1);
        lemma_option_texts();
        lemma_options_front(args, o);
        let p = with_arg(o, args[0], None)->Ok_0;
        assert(is_plain(args[0]) || !text::all_digits(args[0].skip(1)));
        assert forall|k: int| 0 <= k < rest.len() && !is_plain(#[trigger] rest[k]) implies
            !text::all_digits(rest[k].skip(1)) by {
            assert(rest[k] == args[k + 1]);
        }
        lemma_level_kept(rest, p);
    }
}

/// A dash and a number is no other option.
proof fn lemma_number_is_level(n: nat)
    ensures
        arg_of(seq!['-'] + text::dec(n)) == Arg::Level(n),
{
    let d = text::dec(n);
    let a = seq!['-'] + d;
    text::lemma_dec(n);
    reveal_strlit("-o");
    reveal_strlit("--output");
    reveal_strlit("-f");
    reveal_strlit("--force");
    reveal_strlit("-c");
    reveal_strlit("--stdout");
    reveal_strlit("-v");
    reveal_strlit("--verbose");
    reveal_strlit("-q");
    reveal_strlit("--quiet");
    assert(text::is_digit(d[0]));
    assert(a[1] == d[0]);
    assert("-o"@[1] == 'o' && "-f"@[1] == 'f' && "-c"@[1] == 'c' && "-v"@[1] == 'v' && "-q"@[1]
        == 'q');
    assert("--output"@[1] == '-' && "--force"@[1] == '-' && "--stdout"@[1] == '-'
        && "--verbose"@[1] == '-' && "--quiet"@[1] == '-');
    assert(a.skip(1) =~= d);
}

} // verus!
