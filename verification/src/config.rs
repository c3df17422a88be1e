use vstd::prelude::*;
use crate::decimal::{count_of, parse_count};
use crate::flags::Flags;
use crate::order::{compare_words, WordOrder};

verus! {

/// What a run works on: the selection of statistics and the files to read.
pub struct Config {
    pub flags: Flags,
    pub files: Vec<String>,
}

/// What a scan of the arguments has gathered so far.
pub ghost struct Scan {
    /// The switches that the flags seen so far turn on.
    pub flags: Flags,
    /// Whether any flag was seen.
    pub flagged: bool,
    /// The file paths seen so far, in order.
    pub files: Seq<Seq<char>>,
}

/// The message for a run without files.
pub open spec fn no_files() -> Seq<char> {
    "No files provided"@
}

/// The message for `--top` as the last argument.
pub open spec fn missing_top() -> Seq<char> {
    "Missing argument for --top"@
}

/// The message for `--top` before something that is no count.
pub open spec fn invalid_top() -> Seq<char> {
    "Invalid argument for --top"@
}

/// Whether `arg` is one of the two spellings of a flag.
pub open spec fn spells(arg: Seq<char>, short: Seq<char>, long: Seq<char>) -> bool {
    arg == short || arg == long
}

/// Whether `arg` switches the count of lines on.
pub open spec fn is_lines_flag(arg: Seq<char>) -> bool {
    spells(arg, "--l"@, "--lines"@)
}

/// Whether `arg` switches the count of words on.
pub open spec fn is_words_flag(arg: Seq<char>) -> bool {
    spells(arg, "--w"@, "--words"@)
}

/// Whether `arg` switches the count of characters on.
pub open spec fn is_chars_flag(arg: Seq<char>) -> bool {
    spells(arg, "--c"@, "--chars"@)
}

/// Whether `arg` switches the count of bytes on.
pub open spec fn is_bytes_flag(arg: Seq<char>) -> bool {
    spells(arg, "--b"@, "--bytes"@)
}

/// Whether `arg` asks for a ranking; the count of words to rank follows it.
pub open spec fn is_top_flag(arg: Seq<char>) -> bool {
    spells(arg, "--t"@, "--top"@)
}

/// Whether `arg` is a flag; every other argument is a file path.
pub open spec fn is_flag(arg: Seq<char>) -> bool {
    is_lines_flag(arg) || is_words_flag(arg) || is_chars_flag(arg) || is_bytes_flag(arg)
        || is_top_flag(arg)
}

/// Scans the arguments from position `at` on, from left to right, starting
/// from what `sofar` holds. A flag turns its switch on; `--top` takes the
/// argument behind it as its count, and the last `--top` decides; anything
/// else is a file path. The scan stops at the first `--top` without a count.
pub open spec fn scan(args: Seq<Seq<char>>, at: int, sofar: Scan) -> Result<Scan, Seq<char>>
    decreases args.len() - at,
{
    if at < 0 || at >= args.len() {
        Ok(sofar)
    } else if is_lines_flag(args[at]) {
        scan(
            args,
            at + 1,
            Scan { flags: Flags { lines: true, ..sofar.flags }, flagged: true, ..sofar },
        )
    } else if is_words_flag(args[at]) {
        scan(
            args,
            at + 1,
            Scan { flags: Flags { words: true, ..sofar.flags }, flagged: true, ..sofar },
        )
    } else if is_chars_flag(args[at]) {
        scan(
            args,
            at + 1,
            Scan { flags: Flags { chars: true, ..sofar.flags }, flagged: true, ..sofar },
        )
    } else if is_bytes_flag(args[at]) {
        scan(
            args,
            at + 1,
            Scan { flags: Flags { bytes: true, ..sofar.flags }, flagged: true, ..sofar },
        )
    } else if is_top_flag(args[at]) {
        if at + 1 >= args.len() {
            Err(missing_top())
        } else {
            match count_of(args[at + 1]) {
                None => Err(invalid_top()),
                Some(k) => scan(
                    args,
                    at + 2,
                    Scan { flags: Flags { top: Some(k), ..sofar.flags }, flagged: true, ..sofar },
                ),
            }
        }
    } else {
        scan(args, at + 1, Scan { files: sofar.files.push(args[at]), ..sofar })
    }
}

/// What the command line asks for. The first argument names the program and
/// is passed over. Without any flag the standard selection applies; with
/// one, exactly what the flags turn on. A run needs at least one file.
pub open spec fn parse(args: Seq<Seq<char>>) -> Result<(Flags, Seq<Seq<char>>), Seq<char>> {
    match scan(args, 1, Scan { flags: Flags::none(), flagged: false, files: Seq::empty() }) {
        Err(message) => Err(message),
        Ok(found) => if found.files.len() == 0 {
            Err(no_files())
        } else if found.flagged {
            Ok((found.flags, found.files))
        } else {
            Ok((Flags::standard(), found.files))
        },
    }
}

/// Where no flag is left from `at` on, the scan adds what is left to the
/// files and changes nothing else.
proof fn lemma_scan_files(args: Seq<Seq<char>>, at: int, sofar: Scan)
    requires
        0 <= at <= args.len(),
        forall|i: int| at <= i < args.len() ==> !is_flag(#[trigger] args[i]),
    ensures
        scan(args, at, sofar) == Ok::<_, Seq<char>>(
            Scan { files: sofar.files + args.skip(at), ..sofar },
        ),
    decreases args.len() - at,
{
    if at < args.len() {
        assert(!is_flag(args[at]));
        let next = Scan { files: sofar.files.push(args[at]), ..sofar };
        lemma_scan_files(args, at + 1, next);
        assert(next.files + args.skip(at + 1) =~= sofar.files + args.skip(at));
    } else {
        assert(sofar.files + args.skip(at) =~= sofar.files);
    }
}

/// A command line of file paths alone, with no flag anywhere, asks for the
/// standard selection on those files.
pub proof fn lemma_files_alone_mean_standard(args: Seq<Seq<char>>)
    requires
        args.len() >= 2,
        forall|i: int| 1 <= i < args.len() ==> !is_flag(#[trigger] args[i]),
    ensures
        parse(args) == Ok::<_, Seq<char>>((Flags::standard(), args.skip(1))),
{
    let start = Scan { flags: Flags::none(), flagged: false, files: Seq::empty() };
    lemma_scan_files(args, 1, start);
    assert(start.files + args.skip(1) =~= args.skip(1));
}

/// Whether `arg` is spelled `short` or `long`.
fn spelled(arg: &str, short: &str, long: &str) -> (b: bool)
    ensures
        b == spells(arg@, short@, long@),
{
    match compare_words(arg, short) {
        WordOrder::Same => true,
        _ => match compare_words(arg, long) {
            WordOrder::Same => true,
            _ => false,
        },
    }
}

impl Config {
    /// Reads the command line: the program's name, then flags and file paths
    /// in any order.
    pub fn build(args: Vec<String>) -> (r: Result<Config, &'static str>)
        ensures
            match r {
                Ok(config) => parse(args.deep_view()) == Ok::<_, Seq<char>>(
                    (config.flags, config.files.deep_view()),
                ),
                Err(message) => parse(args.deep_view()) == Err::<(Flags, Seq<Seq<char>>), _>(
                    message@,
                ),
            },
    {
        let mut flags = Flags::new();
        let mut flagged = false;
        let mut files: Vec<String> = Vec::new();
        let mut at: usize = 1;
        assert(files.deep_view() =~= Seq::<Seq<char>>::empty());
        while at < args.len()
            invariant
                1 <= at,
                scan(
                    args.deep_view(),
                    at as int,
                    Scan { flags, flagged, files: files.deep_view() },
                ) == scan(
                    args.deep_view(),
                    1,
                    Scan { flags: Flags::none(), flagged: false, files: Seq::empty() },
                ),
            decreases args.len() - at,
        {
            let arg = args[at].as_str();
            assert(arg@ == args.deep_view()[at as int]);
            if spelled(arg, "--l", "--lines") {
                flags.lines = true;
                flagged = true;
                at = at + 1;
            } else if spelled(arg, "--w", "--words") {
                flags.words = true;
                flagged = true;
                at = at + 1;
            } else if spelled(arg, "--c", "--chars") {
                flags.chars = true;
                flagged = true;
                at = at + 1;
            } else if spelled(arg, "--b", "--bytes") {
                flags.bytes = true;
                flagged = true;
                at = at + 1;
            } else if spelled(arg, "--t", "--top") {
                if at + 1 >= args.len() {
                    return Err("Missing argument for --top");
                }
                assert(args[at + 1]@ == args.deep_view()[at + 1]);
                match parse_count(args[at + 1].as_str()) {
                    None => {
                        return Err("Invalid argument for --top");
                    },
                    Some(k) => {
                        flags.top = Some(k);
                        flagged = true;
                        at = at + 2;
                    },
                }
            } else {
                let ghost before = files.deep_view();
                files.push(args[at].clone());
                assert(files.deep_view() == before.push(arg@));
                at = at + 1;
            }
        }
        if files.len() == 0 {
            return Err("No files provided");
        }
        if !flagged {
            flags = Flags::default();
        }
        Ok(Config { flags, files })
    }
}

} // verus!
