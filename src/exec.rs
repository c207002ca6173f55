//! Turning a record's command template into a process argument vector.
use vstd::prelude::*;

use shell_words::ParseError;

use crate::entry::strings_view;

verus! {

#[verifier::external_type_specification]
#[verifier::external_body]
pub struct ExParseError(ParseError);

/// Why a record cannot be turned into a command.
#[derive(Debug, Clone, Copy, PartialEq, Eq, Structural)]
pub enum LaunchError {
    /// No record has the requested id.
    NotFound,
    /// The record has no command template.
    NoExec,
    /// The expanded template holds no word.
    EmptyCommand,
    /// The expanded template's quoting is malformed.
    ParseError,
}

/// Field codes that stand for the file argument.
pub open spec fn is_file_code(c: char) -> bool {
    c == 'u' || c == 'U' || c == 'f' || c == 'F'
}

/// Field codes that are dropped.
pub open spec fn is_dropped_code(c: char) -> bool {
    c == 'i' || c == 'c' || c == 'k'
}

/// The template with, in one pass from the left, each `%u`, `%U`, `%f` and
/// `%F` replaced by `file` and each `%i`, `%c` and `%k` removed.
pub open spec fn expand_codes(s: Seq<char>, file: Seq<char>) -> Seq<char>
    decreases s.len(),
{
    if s.len() == 0 {
        s
    } else if s.len() >= 2 && s[0] == '%' && is_file_code(s[1]) {
        file + expand_codes(s.subrange(2, s.len() as int), file)
    } else if s.len() >= 2 && s[0] == '%' && is_dropped_code(s[1]) {
        expand_codes(s.subrange(2, s.len() as int), file)
    } else {
        seq![s[0]] + expand_codes(s.drop_first(), file)
    }
}

/// The file argument as text: empty where there is none.
pub open spec fn file_text(file: Option<&str>) -> Seq<char> {
    match file {
        Some(f) => f@,
        None => Seq::empty(),
    }
}

/// The words that shell-style splitting makes of a line, or nothing where
/// its quoting is malformed, as `shell_words::split` computes them.
pub uninterp spec fn shell_split(s: Seq<char>) -> Option<Seq<Seq<char>>>;

/// Relies on `shell_words::split`: the words of the line, or an error where
/// the line's quoting is malformed; the result depends on the line alone.
#[verifier::external_body]
fn split_words(s: &str) -> (r: Result<Vec<String>, ParseError>)
    ensures
        r is Ok ==> shell_split(s@) == Some(strings_view(r->Ok_0@)),
        r is Err ==> shell_split(s@) is None,
{
    shell_words::split(s)
}

/// What expanding a template gives: the words of the template with its field
/// codes replaced, or the reason there are none.
pub open spec fn expand_outcome(template: Seq<char>, file: Seq<char>) -> Result<Seq<Seq<char>>, LaunchError> {
    match shell_split(expand_codes(template, file)) {
        None => Err(LaunchError::ParseError),
        Some(w) => if w.len() == 0 {
            Err(LaunchError::EmptyCommand)
        } else {
            Ok(w)
        },
    }
}

/// The model of an argument vector or its failure.
pub open spec fn argv_view(r: Result<Vec<String>, LaunchError>) -> Result<Seq<Seq<char>>, LaunchError> {
    match r {
        Ok(v) => Ok(strings_view(v@)),
        Err(e) => Err(e),
    }
}

/// Replaces the field codes of a command template (see `expand_codes`).
pub fn expand_field_codes(template: &str, file: Option<&str>) -> (r: String)
    ensures
        r@ == expand_codes(template@, file_text(file)),
{
    let f: &str = match file {
        Some(f) => f,
        None => "",
    };
    proof {
        reveal_strlit("");
        assert(f@ == file_text(file));
    }
    let n = template.unicode_len();
    let mut out = String::new();
    let mut i: usize = 0;
    assert(template@.subrange(0, n as int) =~= template@);
    assert(out@ + expand_codes(template@, f@) =~= expand_codes(template@, f@));
    while i < n
        invariant
            i <= n,
            n == template@.len(),
            f@ == file_text(file),
            out@ + expand_codes(template@.subrange(i as int, n as int), f@) == expand_codes(template@, f@),
        decreases n - i,
    {
        let ghost rest = template@.subrange(i as int, n as int);
        let c = template.get_char(i);
        let mut code = false;
        if c == '%' && i + 1 < n {
            let d = template.get_char(i + 1);
            if d == 'u' || d == 'U' || d == 'f' || d == 'F' {
                assert(rest.subrange(2, rest.len() as int) =~= template@.subrange(i + 2, n as int));
                assert(expand_codes(rest, f@) == f@ + expand_codes(rest.subrange(2, rest.len() as int), f@));
                out.append(f);
                assert(out@ + expand_codes(template@.subrange(i + 2, n as int), f@) =~= expand_codes(template@, f@));
                code = true;
            } else if d == 'i' || d == 'c' || d == 'k' {
                assert(rest.subrange(2, rest.len() as int) =~= template@.subrange(i + 2, n as int));
                code = true;
            }
        }
        if code {
            i = i + 2;
        } else {
            assert(rest.drop_first() =~= template@.subrange(i + 1, n as int));
            let one = template.substring_char(i, i + 1);
            assert(one@ =~= seq![c]);
            out.append(one);
            assert(out@ + expand_codes(template@.subrange(i + 1, n as int), f@) =~= expand_codes(template@, f@));
            i = i + 1;
        }
    }
    assert(template@.subrange(n as int, n as int) =~= Seq::<char>::empty());
    assert(out@ =~= out@ + Seq::<char>::empty());
    out
}

/// The command that a split line gives: its words, where the line split
/// and holds at least one word.
pub fn command_from_words(words: Option<Vec<String>>) -> (r: Result<Vec<String>, LaunchError>)
    ensures
        words is None ==> r == Err::<Vec<String>, LaunchError>(LaunchError::ParseError),
        words is Some && words->Some_0@.len() == 0 ==> r == Err::<Vec<String>, LaunchError>(
            LaunchError::EmptyCommand,
        ),
        words is Some && words->Some_0@.len() > 0 ==> r is Ok && r->Ok_0@ == words->Some_0@,
{
    match words {
        None => Err(LaunchError::ParseError),
        Some(w) => {
            if w.len() == 0 {
                Err(LaunchError::EmptyCommand)
            } else {
                Ok(w)
            }
        },
    }
}

/// The argument vector of a command template: the template with its field
/// codes replaced, split into shell-style words; it fails where the quoting
/// is malformed or no word is left.
pub fn expand(template: &str, file: Option<&str>) -> (r: Result<Vec<String>, LaunchError>)
    ensures
        argv_view(r) == expand_outcome(template@, file_text(file)),
{
    let line = expand_field_codes(template, file);
    let words = match split_words(line.as_str()) {
        Ok(w) => Some(w),
        Err(_) => None,
    };
    command_from_words(words)
}

} // verus!
