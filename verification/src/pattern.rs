use regex::Regex;
use vstd::prelude::*;

verus! {

/// `regex::Regex`, a compiled expression. Nothing inside it is read here.
#[verifier::external_type_specification]
#[verifier::external_body]
pub struct ExRegex(Regex);

/// `regex::Error`, the reason why a pattern did not compile. Only its text is
/// taken, by [`error_text`].
#[verifier::external_type_specification]
#[verifier::external_body]
pub struct ExRegexError(regex::Error);

/// What decides the searches of a compiled expression. For an expression that
/// `Regex::new` built, this is the pattern text it was compiled from.
pub uninterp spec fn regex_source(re: Regex) -> Seq<char>;

/// What a search with the expression that `Regex::new` builds from `pattern`
/// finds in `haystack`: `None` where nothing matches, else the text of every
/// capture group of the leftmost match, group 0 (the whole match) first, and
/// `None` for a group that took no part in the match.
pub uninterp spec fn regex_captures(pattern: Seq<char>, haystack: Seq<char>) -> Option<
    Seq<Option<Seq<char>>>,
>;

/// Why `Regex::new` does not compile `pattern`: `None` where it compiles, else
/// the text of the error that is returned, for a pattern that is not a valid
/// expression or whose compiled form is over the default size limit.
pub uninterp spec fn regex_compile_error(pattern: Seq<char>) -> Option<Seq<char>>;

/// `Regex::new` compiles a pattern. Trusted: whether it succeeds, and with
/// which error it fails, is decided by the pattern text alone, and so are the
/// searches of the expression it returns. Nothing is claimed about which
/// patterns compile.
pub assume_specification[ Regex::new ](re: &str) -> (compiled: Result<Regex, regex::Error>)
    ensures
        match compiled {
            Ok(expression) => regex_compile_error(re@) is None && regex_source(expression) == re@,
            Err(error) => regex_compile_error(re@) == Some(regex_error_text(error)),
        },
;

/// Calls `Regex::captures` and copies the text of each capture group out of the
/// haystack. Trusted: the outcome is the one search result that the
/// expression and the haystack determine; the search does not panic.
#[verifier::external_body]
fn capture_groups(re: &Regex, haystack: &str) -> (groups: Option<Vec<Option<String>>>)
    ensures
        groups.deep_view() == regex_captures(regex_source(*re), haystack@),
{
    re.captures(haystack).map(
        |found| found.iter().map(|group| group.map(|m| m.as_str().to_string())).collect(),
    )
}

/// The text that the `Display` impl of `regex::Error` writes for a compile
/// error: the words of a syntax error, or the statement that the compiled
/// expression is over the size limit. It is the same for the same error,
/// whenever it is written.
pub uninterp spec fn regex_error_text(error: regex::Error) -> Seq<char>;

/// The structure of an event line: a decimal timestamp, `local/total:`, the
/// operation keyword, and three numeric fields for message kind, remote rank
/// and size, separated by white space. The pattern may match anywhere in a line.
pub const TRACE_PATTERN: &'static str =
    "(\\d+\\.\\d+)\\s+(\\d+)/(\\d+):\\s+(send|recv)\\s+(\\d+)\\s+(\\d+)\\s+(\\d+)";

/// The capture groups of the event pattern in `line`, if it matches.
pub open spec fn trace_captures(line: Seq<char>) -> Option<Seq<Option<Seq<char>>>> {
    regex_captures(TRACE_PATTERN@, line)
}

/// The event pattern could not be compiled.
#[derive(Clone, Debug, PartialEq, Eq)]
pub struct PatternError {
    pub message: String,
}

/// The compiled event pattern.
pub struct TracePattern {
    re: Regex,
}

impl TracePattern {
    #[verifier::type_invariant]
    /// The expression is the event pattern, compiled.
    spec fn holds_trace_pattern(self) -> bool {
        regex_source(self.re) == TRACE_PATTERN@
    }

    /// The pattern text that decides what the searches find.
    pub closed spec fn source(&self) -> Seq<char> {
        regex_source(self.re)
    }

    /// Compiles the event pattern. The result is a pattern that searches for
    /// [`TRACE_PATTERN`] if that text compiles, and else the error of the
    /// compiler of expressions with its text.
    pub fn new() -> (compiled: Result<TracePattern, PatternError>)
        ensures
            match compiled {
                Ok(pattern) => regex_compile_error(TRACE_PATTERN@) is None && pattern.source()
                    == TRACE_PATTERN@,
                Err(failure) => regex_compile_error(TRACE_PATTERN@) == Some(failure.message@),
            },
    {
        TracePattern::from_compiled(Regex::new(TRACE_PATTERN))
    }

    /// Searches `line` for the event pattern and returns its capture groups.
    pub fn captures(&self, line: &str) -> (groups: Option<Vec<Option<String>>>)
        ensures
            self.source() == TRACE_PATTERN@,
            groups.deep_view() == trace_captures(line@),
    {
        proof {
            use_type_invariant(self);
        }
        capture_groups(&self.re, line)
    }

    /// Turns the outcome of compiling the event pattern into a pattern to
    /// search with: the compiled expression is kept as it is, and a compile
    /// error is handed on with its text.
    pub fn from_compiled(compiled: Result<Regex, regex::Error>) -> (pattern: Result<
        TracePattern,
        PatternError,
    >)
        requires
            compiled matches Ok(expression) ==> regex_source(expression) == TRACE_PATTERN@,
        ensures
            match compiled {
                Ok(expression) => pattern matches Ok(kept) && kept.source() == regex_source(
                    expression,
                ),
                Err(error) => pattern matches Err(failure) && failure.message@
                    == regex_error_text(error),
            },
    {
        match compiled {
            Ok(re) => Ok(TracePattern { re }),
            Err(error) => Err(PatternError { message: error_text(&error) }),
        }
    }
}

/// Calls the `Display` impl of `regex::Error`, through `to_string`, for the
/// text of a compile error. Trusted: the text is the one that the error
/// determines.
#[verifier::external_body]
fn error_text(error: &regex::Error) -> (text: String)
    ensures
        text@ == regex_error_text(*error),
{
    error.to_string()
}

} // verus!
