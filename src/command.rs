//! Command-line arguments, read into a command.
use vstd::prelude::*;
use vstd::std_specs::iter::IteratorSpec;

verus! {

broadcast use vstd::string::axiom_spec_iter, vstd::string::next_postcondition;

/// The characters of `s`, in order.
fn chars_of(s: &str) -> (v: Vec<char>)
    ensures
        v@ == s@,
{
    let mut it = s.chars();
    let mut v: Vec<char> = Vec::new();
    loop
        invariant_except_break
            it.obeys_prophetic_iter_laws(),
            it.decrease() is Some,
        invariant
            v@ + it.remaining() == s@,
        ensures
            v@ == s@,
        decreases it.decrease()->0,
    {
        match it.next() {
            Some(c) => {
                v.push(c);
            },
            None => {
                assert(v@ =~= v@ + it.remaining());
                break;
            },
        }
    }
    v
}

/// Whether `c` is one of the ASCII digits `0` to `9`.
pub open spec fn is_digit(c: char) -> bool {
    '0' <= c <= '9'
}

/// Value of the ASCII digit `c`.
pub open spec fn digit_value(c: char) -> nat {
    (c as u32 - '0' as u32) as nat
}

/// Value of a string of decimal digits, most significant first.
pub open spec fn decimal_value(s: Seq<char>) -> nat
    decreases s.len(),
{
    if s.len() == 0 {
        0
    } else {
        decimal_value(s.drop_last()) * 10 + digit_value(s.last())
    }
}

/// Whether every character of `t` is an ASCII digit.
pub open spec fn all_digits(t: Seq<char>) -> bool {
    forall|i: int| 0 <= i < t.len() ==> is_digit(#[trigger] t[i])
}

/// `s` without one leading `+`, if it has one.
pub open spec fn unsigned_part(s: Seq<char>) -> Seq<char> {
    if s.len() > 0 && s[0] == '+' {
        s.drop_first()
    } else {
        s
    }
}

/// The positive machine-size integer that `s` writes in decimal (an optional `+`,
/// then at least one digit), or `None`.
pub open spec fn positive_value(s: Seq<char>) -> Option<nat> {
    let t = unsigned_part(s);
    if t.len() > 0 && all_digits(t) && 0 < decimal_value(t) <= usize::MAX {
        Some(decimal_value(t))
    } else {
        None
    }
}

/// Over digits, the value of a prefix never exceeds the value of the whole.
proof fn lemma_decimal_prefix(t: Seq<char>, i: int)
    requires
        0 <= i <= t.len(),
        all_digits(t),
    ensures
        decimal_value(t.take(i)) <= decimal_value(t),
    decreases t.len() - i,
{
    if i < t.len() {
        lemma_decimal_prefix(t, i + 1);
        assert(t.take(i + 1).drop_last() =~= t.take(i));
    } else {
        assert(t.take(i) =~= t);
    }
}

/// Reads a positive part count from `s`: an optional `+`, then decimal digits,
/// with a value from 1 to `usize::MAX`.
pub fn parse_positive(s: &str) -> (r: Option<usize>)
    ensures
        r matches Some(v) ==> positive_value(s@) == Some(v as nat),
        r is None ==> positive_value(s@) is None,
{
    let chars = chars_of(s);
    let len = chars.len();
    let start: usize = if len > 0 && chars[0] == '+' {
        1
    } else {
        0
    };
    let ghost t = unsigned_part(s@);
    assert(t =~= chars@.skip(start as int));
    if start == len {
        return None;
    }
    let mut value: usize = 0;
    let mut i: usize = start;
    while i < len
        invariant
            start <= i <= len,
            len == chars@.len(),
            chars@ == s@,
            t == chars@.skip(start as int),
            t == unsigned_part(s@),
            forall|k: int| 0 <= k < i - start ==> is_digit(#[trigger] t[k]),
            value == decimal_value(t.take(i - start)),
        decreases len - i,
    {
        let c = chars[i];
        if !('0' <= c && c <= '9') {
            assert(!is_digit(t[i - start]));
            assert(!all_digits(t));
            return None;
        }
        let d = (c as u32 - '0' as u32) as usize;
        assert(t.take(i + 1 - start).drop_last() =~= t.take(i - start));
        assert(t.take(i + 1 - start).last() == c);
        assert(d == digit_value(c));
        assert(is_digit(t[i - start]));
        assert(decimal_value(t.take(i + 1 - start)) == value * 10 + d);
        match value.checked_mul(10) {
            Some(tens) => match tens.checked_add(d) {
                Some(next) => {
                    value = next;
                },
                None => {
                    proof {
                        lemma_not_decimal_or_too_large(t, i + 1 - start);
                    }
                    return None;
                },
            },
            None => {
                proof {
                    lemma_not_decimal_or_too_large(t, i + 1 - start);
                }
                return None;
            },
        }
        i = i + 1;
    }
    assert(t.take(len - start) =~= t);
    if value == 0 {
        return None;
    }
    Some(value)
}

/// A digit prefix whose value exceeds `usize::MAX` leaves no positive value.
proof fn lemma_not_decimal_or_too_large(t: Seq<char>, i: int)
    requires
        0 < i <= t.len(),
        forall|k: int| 0 <= k < i ==> is_digit(#[trigger] t[k]),
        decimal_value(t.take(i)) > usize::MAX,
    ensures
        !(all_digits(t) && decimal_value(t) <= usize::MAX),
{
    if all_digits(t) {
        lemma_decimal_prefix(t, i);
    }
}

/// What the program is asked to do.
pub enum Command {
    /// Merge the parts in `source_paths`, in that order, into `target_path`.
    Merge { source_paths: Vec<String>, target_path: String },
    /// Split `source_path` into `n_parts` parts.
    Split { source_path: String, n_parts: usize },
    /// Print the usage text.
    Help,
}

/// Why the arguments name no command.
pub enum ArgError {
    /// Fewer arguments than the command needs.
    TooFewArguments,
    /// `--split` with other than two operands.
    WrongArgumentCount,
    /// The part count is not a positive integer; holds the argument.
    NotPositiveInteger(String),
    /// The first argument is no known option; holds it.
    UnknownArgument(String),
}

/// A command, with its text as character sequences.
pub enum CommandView {
    Merge { source_paths: Seq<Seq<char>>, target_path: Seq<char> },
    Split { source_path: Seq<char>, n_parts: nat },
    Help,
}

/// An argument error, with its text as a character sequence.
pub enum ArgErrorView {
    TooFewArguments,
    WrongArgumentCount,
    NotPositiveInteger(Seq<char>),
    UnknownArgument(Seq<char>),
}

/// The character sequences of a sequence of strings.
pub open spec fn strings_view(v: Seq<String>) -> Seq<Seq<char>> {
    Seq::new(v.len(), |i: int| v[i]@)
}

impl View for Command {
    type V = CommandView;

    open spec fn view(&self) -> CommandView {
        match self {
            Command::Merge { source_paths, target_path } => CommandView::Merge {
                source_paths: strings_view(source_paths@),
                target_path: target_path@,
            },
            Command::Split { source_path, n_parts } => CommandView::Split {
                source_path: source_path@,
                n_parts: *n_parts as nat,
            },
            Command::Help => CommandView::Help,
        }
    }
}

impl View for ArgError {
    type V = ArgErrorView;

    open spec fn view(&self) -> ArgErrorView {
        match self {
            ArgError::TooFewArguments => ArgErrorView::TooFewArguments,
            ArgError::WrongArgumentCount => ArgErrorView::WrongArgumentCount,
            ArgError::NotPositiveInteger(a) => ArgErrorView::NotPositiveInteger(a@),
            ArgError::UnknownArgument(a) => ArgErrorView::UnknownArgument(a@),
        }
    }
}

/// The view of a parse result.
pub open spec fn parsed_view(r: Result<Command, ArgError>) -> Result<CommandView, ArgErrorView> {
    match r {
        Ok(c) => Ok(c@),
        Err(e) => Err(e@),
    }
}

/// The command that the argument list `args` names; `args[0]` is the program.
///
/// `--merge <in1> <in2>... <out>` takes at least two inputs, then the output;
/// `--split <parts> <in>` exactly two, the first a positive integer; `--help` none.
pub open spec fn command_of(args: Seq<Seq<char>>) -> Result<CommandView, ArgErrorView> {
    if args.len() < 2 {
        Err(ArgErrorView::TooFewArguments)
    } else if args[1] == "--merge"@ {
        if args.len() < 5 {
            Err(ArgErrorView::TooFewArguments)
        } else {
            Ok(
                CommandView::Merge {
                    source_paths: args.subrange(2, args.len() - 1),
                    target_path: args.last(),
                },
            )
        }
    } else if args[1] == "--split"@ {
        if args.len() != 4 {
            Err(ArgErrorView::WrongArgumentCount)
        } else {
            match positive_value(args[2]) {
                Some(n) => Ok(CommandView::Split { source_path: args[3], n_parts: n }),
                None => Err(ArgErrorView::NotPositiveInteger(args[2])),
            }
        }
    } else if args[1] == "--help"@ {
        Ok(CommandView::Help)
    } else {
        Err(ArgErrorView::UnknownArgument(args[1]))
    }
}

/// Reads the command from the argument list `args`, whose first item is the
/// program's name.
pub fn parse_args(args: &[String]) -> (r: Result<Command, ArgError>)
    ensures
        parsed_view(r) == command_of(strings_view(args@)),
{
    let ghost a = strings_view(args@);
    let len = args.len();
    if len < 2 {
        return Err(ArgError::TooFewArguments);
    }
    let merge_flag = "--merge".to_owned();
    let split_flag = "--split".to_owned();
    let help_flag = "--help".to_owned();
    assert(a[1] == args@[1]@);
    if args[1] == merge_flag {
        if len < 5 {
            return Err(ArgError::TooFewArguments);
        }
        let mut source_paths: Vec<String> = Vec::new();
        let mut i: usize = 2;
        while i < len - 1
            invariant
                2 <= i <= len - 1,
                len == args@.len(),
                a == strings_view(args@),
                source_paths@.len() == i - 2,
                strings_view(source_paths@) == a.subrange(2, i as int),
            decreases len - 1 - i,
        {
            let ghost before = source_paths@;
            source_paths.push(args[i].clone());
            i = i + 1;
            assert forall|k: int| 0 <= k < i - 2 implies #[trigger] strings_view(source_paths@)[k]
                == a.subrange(2, i as int)[k] by {
                if k < before.len() {
                    assert(strings_view(before)[k] == a.subrange(2, i - 1)[k]);
                }
            }
            assert(strings_view(source_paths@) =~= a.subrange(2, i as int));
        }
        let target_path = args[len - 1].clone();
        let r = Ok(Command::Merge { source_paths, target_path });
        assert(parsed_view(r) == command_of(a));
        r
    } else if args[1] == split_flag {
        if len != 4 {
            return Err(ArgError::WrongArgumentCount);
        }
        assert(a[2] == args@[2]@ && a[3] == args@[3]@);
        match parse_positive(args[2].as_str()) {
            Some(n_parts) => Ok(Command::Split { source_path: args[3].clone(), n_parts }),
            None => Err(ArgError::NotPositiveInteger(args[2].clone())),
        }
    } else if args[1] == help_flag {
        Ok(Command::Help)
    } else {
        Err(ArgError::UnknownArgument(args[1].clone()))
    }
}

/// The ASCII digit for `d < 10`.
pub open spec fn digit_char(d: nat) -> char {
    (48 + d) as char
}

/// `k` written in decimal, without leading zeros.
pub open spec fn decimal_text(k: nat) -> Seq<char>
    decreases k,
{
    if k < 10 {
        seq![digit_char(k)]
    } else {
        decimal_text(k / 10).push(digit_char(k % 10))
    }
}

/// Relies on `format!` with `{}`: a `String` is written as it is, and an
/// unsigned integer in decimal without leading zeros.
#[verifier::external_body]
fn numbered_path(path: &String, k: usize) -> (r: String)
    ensures
        r@ == path@ + decimal_text(k as nat),
{
    format!("{}{}", path, k)
}

/// The names of the `n_parts` part files of `source_path`: the path followed by
/// the part's number, counted from 1.
pub fn part_paths(source_path: &String, n_parts: usize) -> (paths: Vec<String>)
    ensures
        paths@.len() == n_parts,
        forall|i: int| 0 <= i < n_parts ==> #[trigger] paths@[i]@ == source_path@ + decimal_text((i + 1) as nat),
{
    let mut paths: Vec<String> = Vec::with_capacity(n_parts);
    let mut i: usize = 0;
    while i < n_parts
        invariant
            i <= n_parts,
            paths@.len() == i,
            forall|k: int| 0 <= k < i ==> #[trigger] paths@[k]@ == source_path@ + decimal_text((k + 1) as nat),
        decreases n_parts - i,
    {
        paths.push(numbered_path(source_path, i + 1));
        i = i + 1;
    }
    paths
}

} // verus!
