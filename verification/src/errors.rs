//! Source locations and the error taxonomy of the interpreter.
//!
//! Every location-aware error carries the original source text so that a
//! caret-style diagnostic can be rendered without further context.

use vstd::prelude::*;
use vstd::string::StringExecFns;
use crate::chars::{chars_to_string, string_to_chars, u64_to_dec_chars, udec};

verus! {

/// A position in source text: line and column are 1-indexed, `start_pos` is a
/// 0-indexed character offset. Diagnostic only; never affects execution.
#[derive(Debug, PartialEq, Eq)]
pub struct CodeLocation {
    pub source: Option<String>,
    pub line: usize,
    pub column: usize,
    pub start_pos: usize,
    pub end_pos: Option<usize>,
}

impl Clone for CodeLocation {
    fn clone(&self) -> (r: Self)
        ensures
            r == *self,
    {
        Self {
            source: match &self.source {
                Some(s) => Some(s.clone()),
                None => None,
            },
            line: self.line,
            column: self.column,
            start_pos: self.start_pos,
            end_pos: self.end_pos,
        }
    }
}

impl CodeLocation {
    /// Create a location at the given line, column and character offset.
    pub fn new(line: usize, column: usize, start_pos: usize) -> (r: Self)
        ensures
            r == (CodeLocation {
                source: None,
                line,
                column,
                start_pos,
                end_pos: None,
            }),
    {
        Self { source: None, line, column, start_pos, end_pos: None }
    }

    /// Attach a source identifier.
    pub fn with_source(self, source: String) -> (r: Self)
        ensures
            r == (CodeLocation { source: Some(source), ..self }),
    {
        Self { source: Some(source), ..self }
    }

    /// Set the end offset.
    pub fn with_end_pos(self, end_pos: usize) -> (r: Self)
        ensures
            r == (CodeLocation { end_pos: Some(end_pos), ..self }),
    {
        Self { end_pos: Some(end_pos), ..self }
    }
}

impl Default for CodeLocation {
    /// The default location: line 1, column 1, offset 0.
    fn default() -> (r: Self)
        ensures
            r == (CodeLocation {
                source: None,
                line: 1,
                column: 1,
                start_pos: 0,
                end_pos: None,
            }),
    {
        Self { source: None, line: 1, column: 1, start_pos: 0, end_pos: None }
    }
}

/// The error taxonomy of the interpreter.
///
/// `IntentionalStop` is not a failure: it is a deliberate control signal
/// that always bypasses per-word error handlers.
#[derive(Debug)]
pub enum ForthicError {
    /// Word lookup exhausted the module stack and every literal recognizer.
    UnknownWord { forthic: String, word: String, location: Option<CodeLocation>, cause: Option<
        Box<ForthicError>,
    > },
    /// An error raised while executing a word of a definition, wrapping the
    /// inner error together with call and definition locations.
    WordExecution { message: String, inner_error: Box<ForthicError>, call_location: Option<
        CodeLocation,
    >, definition_location: Option<CodeLocation> },
    /// A definition was still open when it had to be closed.
    MissingSemicolon { forthic: String, location: Option<CodeLocation>, cause: Option<
        Box<ForthicError>,
    > },
    /// A definition was closed while none was open.
    ExtraSemicolon { forthic: String, location: Option<CodeLocation>, cause: Option<
        Box<ForthicError>,
    > },
    /// A pop from an empty data stack, or an illegal pop of the app module.
    StackUnderflow { forthic: String, location: Option<CodeLocation>, cause: Option<
        Box<ForthicError>,
    > },
    /// A variable name with the reserved `__` prefix.
    InvalidVariableName { forthic: String, varname: String, location: Option<CodeLocation>, cause:
        Option<Box<ForthicError>> },
    /// A lookup of a module that was never registered.
    UnknownModule { forthic: String, module_name: String, location: Option<CodeLocation>, cause:
        Option<Box<ForthicError>> },
    /// The tokenizer cursor would move before the start of the input;
    /// defensive, unreachable from well-formed input.
    InvalidInputPosition { forthic: String, location: Option<CodeLocation>, cause: Option<
        Box<ForthicError>,
    > },
    /// A definition or memo name containing a forbidden character, or none
    /// at all.
    InvalidWordName { forthic: String, note: Option<String>, location: Option<CodeLocation>,
        cause: Option<Box<ForthicError>> },
    /// A string literal still open at the end of the input.
    UnterminatedString { forthic: String, location: Option<CodeLocation>, cause: Option<
        Box<ForthicError>,
    > },
    /// A token of a kind the dispatcher does not know.
    UnknownToken { forthic: String, token: String, location: Option<CodeLocation>, cause: Option<
        Box<ForthicError>,
    > },
    /// An error inside a module's own code, wrapping the inner error
    /// together with the module's name.
    Module { forthic: String, module_name: String, inner_message: String, inner_error: Box<
        ForthicError,
    >, location: Option<CodeLocation>, cause: Option<Box<ForthicError>> },
    /// A retry budget built atop the handler mechanism was exhausted.
    TooManyAttempts { forthic: String, num_attempts: usize, max_attempts: usize, location: Option<
        CodeLocation,
    >, cause: Option<Box<ForthicError>> },
    /// The deliberate, handler-immune abort signal.
    IntentionalStop { message: String },
}

/// The source text attached to an error, if any.
pub open spec fn spec_forthic(e: &ForthicError) -> Option<Seq<char>> {
    match e {
        ForthicError::UnknownWord { forthic, .. } => Some(forthic@),
        ForthicError::MissingSemicolon { forthic, .. } => Some(forthic@),
        ForthicError::ExtraSemicolon { forthic, .. } => Some(forthic@),
        ForthicError::StackUnderflow { forthic, .. } => Some(forthic@),
        ForthicError::InvalidVariableName { forthic, .. } => Some(forthic@),
        ForthicError::UnknownModule { forthic, .. } => Some(forthic@),
        ForthicError::InvalidInputPosition { forthic, .. } => Some(forthic@),
        ForthicError::InvalidWordName { forthic, .. } => Some(forthic@),
        ForthicError::UnterminatedString { forthic, .. } => Some(forthic@),
        ForthicError::UnknownToken { forthic, .. } => Some(forthic@),
        ForthicError::Module { forthic, .. } => Some(forthic@),
        ForthicError::TooManyAttempts { forthic, .. } => Some(forthic@),
        ForthicError::WordExecution { .. } => None,
        ForthicError::IntentionalStop { .. } => None,
    }
}

/// The location attached to an error, if any; for a word-execution error,
/// the call site.
pub open spec fn spec_location(e: &ForthicError) -> Option<CodeLocation> {
    match e {
        ForthicError::UnknownWord { location, .. } => *location,
        ForthicError::MissingSemicolon { location, .. } => *location,
        ForthicError::ExtraSemicolon { location, .. } => *location,
        ForthicError::StackUnderflow { location, .. } => *location,
        ForthicError::InvalidVariableName { location, .. } => *location,
        ForthicError::UnknownModule { location, .. } => *location,
        ForthicError::InvalidInputPosition { location, .. } => *location,
        ForthicError::InvalidWordName { location, .. } => *location,
        ForthicError::UnterminatedString { location, .. } => *location,
        ForthicError::UnknownToken { location, .. } => *location,
        ForthicError::Module { location, .. } => *location,
        ForthicError::TooManyAttempts { location, .. } => *location,
        ForthicError::WordExecution { call_location, .. } => *call_location,
        ForthicError::IntentionalStop { .. } => None,
    }
}

/// The one-line description of an error, without source context.
pub open spec fn spec_message(e: &ForthicError) -> Seq<char> {
    match e {
        ForthicError::UnknownWord { word, .. } => "Unknown word: "@ + word@,
        ForthicError::WordExecution { message, .. } => message@,
        ForthicError::MissingSemicolon { .. } => "Missing semicolon"@,
        ForthicError::ExtraSemicolon { .. } => "Extra semicolon"@,
        ForthicError::StackUnderflow { .. } => "Stack underflow"@,
        ForthicError::InvalidVariableName { varname, .. } => "Invalid variable name: "@ + varname@,
        ForthicError::UnknownModule { module_name, .. } => "Unknown module: "@ + module_name@,
        ForthicError::InvalidInputPosition { .. } => "Invalid input position"@,
        ForthicError::InvalidWordName { .. } => "Invalid word name"@,
        ForthicError::UnterminatedString { .. } => "Unterminated string"@,
        ForthicError::UnknownToken { token, .. } => "Unknown type of token: "@ + token@,
        ForthicError::Module { module_name, inner_message, .. } => "Error in module "@
            + module_name@ + ": "@ + inner_message@,
        ForthicError::TooManyAttempts { num_attempts, max_attempts, .. } =>
            "Too many recovery attempts: "@ + udec(*num_attempts as nat) + " of "@ + udec(
            *max_attempts as nat,
        ),
        ForthicError::IntentionalStop { message } => "Intentional stop: "@ + message@,
    }
}

impl ForthicError {
    /// The source text attached to this error, if any.
    pub fn get_forthic(&self) -> (r: Option<&str>)
        ensures
            match r {
                Some(s) => spec_forthic(self) == Some(s@),
                None => spec_forthic(self) is None,
            },
    {
        match self {
            Self::UnknownWord { forthic, .. } => Some(forthic.as_str()),
            Self::MissingSemicolon { forthic, .. } => Some(forthic.as_str()),
            Self::ExtraSemicolon { forthic, .. } => Some(forthic.as_str()),
            Self::StackUnderflow { forthic, .. } => Some(forthic.as_str()),
            Self::InvalidVariableName { forthic, .. } => Some(forthic.as_str()),
            Self::UnknownModule { forthic, .. } => Some(forthic.as_str()),
            Self::InvalidInputPosition { forthic, .. } => Some(forthic.as_str()),
            Self::InvalidWordName { forthic, .. } => Some(forthic.as_str()),
            Self::UnterminatedString { forthic, .. } => Some(forthic.as_str()),
            Self::UnknownToken { forthic, .. } => Some(forthic.as_str()),
            Self::Module { forthic, .. } => Some(forthic.as_str()),
            Self::TooManyAttempts { forthic, .. } => Some(forthic.as_str()),
            Self::WordExecution { .. } => None,
            Self::IntentionalStop { .. } => None,
        }
    }

    /// The location attached to this error, if any.
    pub fn get_location(&self) -> (r: Option<&CodeLocation>)
        ensures
            match r {
                Some(l) => spec_location(self) == Some(*l),
                None => spec_location(self) is None,
            },
    {
        match self {
            Self::UnknownWord { location, .. } => location.as_ref(),
            Self::MissingSemicolon { location, .. } => location.as_ref(),
            Self::ExtraSemicolon { location, .. } => location.as_ref(),
            Self::StackUnderflow { location, .. } => location.as_ref(),
            Self::InvalidVariableName { location, .. } => location.as_ref(),
            Self::UnknownModule { location, .. } => location.as_ref(),
            Self::InvalidInputPosition { location, .. } => location.as_ref(),
            Self::InvalidWordName { location, .. } => location.as_ref(),
            Self::UnterminatedString { location, .. } => location.as_ref(),
            Self::UnknownToken { location, .. } => location.as_ref(),
            Self::Module { location, .. } => location.as_ref(),
            Self::TooManyAttempts { location, .. } => location.as_ref(),
            Self::WordExecution { call_location, .. } => call_location.as_ref(),
            Self::IntentionalStop { .. } => None,
        }
    }

    /// The one-line description of this error, without source context.
    pub fn message(&self) -> (r: String)
        ensures
            r@ == spec_message(self),
    {
        match self {
            Self::UnknownWord { word, .. } => concat2("Unknown word: ", word.as_str()),
            Self::WordExecution { message, .. } => message.clone(),
            Self::MissingSemicolon { .. } => String::from_str("Missing semicolon"),
            Self::ExtraSemicolon { .. } => String::from_str("Extra semicolon"),
            Self::StackUnderflow { .. } => String::from_str("Stack underflow"),
            Self::InvalidVariableName { varname, .. } => concat2(
                "Invalid variable name: ",
                varname.as_str(),
            ),
            Self::UnknownModule { module_name, .. } => concat2(
                "Unknown module: ",
                module_name.as_str(),
            ),
            Self::InvalidInputPosition { .. } => String::from_str("Invalid input position"),
            Self::InvalidWordName { .. } => String::from_str("Invalid word name"),
            Self::UnterminatedString { .. } => String::from_str("Unterminated string"),
            Self::UnknownToken { token, .. } => concat2("Unknown type of token: ", token.as_str()),
            Self::Module { module_name, inner_message, .. } => {
                let mut out = String::from_str("Error in module ");
                out.append(module_name.as_str());
                out.append(": ");
                out.append(inner_message.as_str());
                out
            },
            Self::TooManyAttempts { num_attempts, max_attempts, .. } => {
                let mut out = String::from_str("Too many recovery attempts: ");
                let num = usize_to_string(*num_attempts);
                out.append(num.as_str());
                out.append(" of ");
                let max = usize_to_string(*max_attempts);
                out.append(max.as_str());
                out
            },
            Self::IntentionalStop { message } => concat2("Intentional stop: ", message.as_str()),
        }
    }

    /// A formatted multi-line description: the one-line message followed by
    /// the relevant source lines in a fenced block under a caret underline.
    ///
    /// An error without source text or location formats as its one-line
    /// message alone.
    pub fn format_with_context(&self) -> (r: String)
        ensures
            r@ == spec_format_with_context(self),
    {
        let message = self.message();
        let has_forthic = match self.get_forthic() {
            Some(f) => !f.is_empty(),
            None => false,
        };
        if !has_forthic {
            return message;
        }
        let forthic: &str = match self.get_forthic() {
            Some(f) => f,
            None => "",
        };
        match self.get_location() {
            Some(location) => format_standard_error(message.as_str(), forthic, location),
            None => message,
        }
    }
}

/// The format of `ForthicError::format_with_context`.
pub open spec fn spec_format_with_context(e: &ForthicError) -> Seq<char> {
    match spec_forthic(e) {
        Some(f) => if f.len() == 0 {
            spec_message(e)
        } else {
            match spec_location(e) {
                Some(loc) => spec_standard_error(spec_message(e), f, loc),
                None => spec_message(e),
            }
        },
        None => spec_message(e),
    }
}

/// Concatenate two string slices.
fn concat2(a: &str, b: &str) -> (r: String)
    ensures
        r@ == a@ + b@,
{
    let mut out = String::from_str(a);
    out.append(b);
    out
}

/// Format a `usize` in decimal.
pub fn usize_to_string(n: usize) -> (r: String)
    ensures
        r@ == udec(n as nat),
{
    let digits = u64_to_dec_chars(n as u64);
    chars_to_string(&digits)
}

/// The characters of `s` up to but excluding its `k`-th newline, or all of
/// `s` if it has fewer than `k` newlines. This is what the first `k` lines
/// of `s`, joined back with newlines, read as.
pub open spec fn spec_first_lines(s: Seq<char>, k: int) -> Seq<char>
    decreases s.len(),
{
    if k <= 0 || s.len() == 0 {
        Seq::empty()
    } else if s[0] == '\n' {
        if k == 1 {
            Seq::empty()
        } else {
            seq!['\n'] + spec_first_lines(s.skip(1), k - 1)
        }
    } else {
        seq![s[0]] + spec_first_lines(s.skip(1), k)
    }
}

/// A sequence of `n` copies of `c`.
pub open spec fn spec_repeat(c: char, n: int) -> Seq<char> {
    Seq::new(if n >= 0 {
        n as nat
    } else {
        0
    }, |i: int| c)
}

/// The location note of a diagnostic: `at line N`, with ` in SOURCE`
/// appended when the location names a source.
pub open spec fn spec_location_info(loc: CodeLocation) -> Seq<char> {
    let base = "at line "@ + udec(loc.line as nat);
    match loc.source {
        Some(src) => base + " in "@ + src@,
        None => base,
    }
}

/// The caret underline of a diagnostic: spaces up to the error column, then
/// one caret per character of the error span, at least one.
pub open spec fn spec_error_indicator(loc: CodeLocation) -> Seq<char> {
    let end = match loc.end_pos {
        Some(e) => e as int,
        None => loc.start_pos + 1,
    };
    let width = if end - loc.start_pos >= 1 {
        end - loc.start_pos
    } else {
        1
    };
    spec_repeat(' ', loc.column - 1) + spec_repeat('^', width)
}

/// The standard diagnostic format: the message and location note, then the
/// source lines up to the error line in a fenced block, with the caret
/// underline as its last line.
pub open spec fn spec_standard_error(message: Seq<char>, forthic: Seq<char>, loc: CodeLocation)
    -> Seq<char> {
    message + " "@ + spec_location_info(loc) + ":\n```\n"@ + spec_first_lines(
        forthic,
        loc.line as int,
    ) + "\n"@ + spec_error_indicator(loc) + "\n```"@
}

/// Collect the characters of `s` up to but excluding its `k`-th newline.
fn first_lines_chars(s: &Vec<char>, k: usize) -> (r: Vec<char>)
    ensures
        r@ == spec_first_lines(s@, k as int),
{
    let mut out: Vec<char> = Vec::new();
    if k == 0 {
        proof {
            assert(out@ =~= spec_first_lines(s@, 0));
        }
        return out;
    }
    let mut i: usize = 0;
    let mut newlines_left: usize = k;
    proof {
        assert(s@.skip(0) =~= s@);
        assert(out@ + spec_first_lines(s@, k as int) =~= spec_first_lines(s@, k as int));
    }
    loop
        invariant
            0 <= i <= s@.len(),
            1 <= newlines_left <= k,
            spec_first_lines(s@, k as int) == out@ + spec_first_lines(
                s@.skip(i as int),
                newlines_left as int,
            ),
        ensures
            out@ == spec_first_lines(s@, k as int),
        decreases s@.len() - i,
    {
        if i >= s.len() {
            proof {
                assert(s@.skip(i as int) =~= Seq::<char>::empty());
                assert(spec_first_lines(s@.skip(i as int), newlines_left as int)
                    =~= Seq::<char>::empty());
                assert(out@ + Seq::<char>::empty() =~= out@);
            }
            break;
        }
        let c = s[i];
        proof {
            assert(s@.skip(i as int)[0] == c);
            assert(s@.skip(i as int).skip(1) =~= s@.skip(i + 1));
        }
        if c == '\n' {
            if newlines_left == 1 {
                proof {
                    assert(spec_first_lines(s@.skip(i as int), 1) =~= Seq::<char>::empty());
                    assert(out@ + Seq::<char>::empty() =~= out@);
                }
                break;
            }
            proof {
                assert(out@ + (seq!['\n'] + spec_first_lines(s@.skip(i + 1), newlines_left - 1))
                    =~= out@.push('\n') + spec_first_lines(s@.skip(i + 1), newlines_left - 1));
            }
            out.push(c);
            newlines_left = newlines_left - 1;
            i = i + 1;
        } else {
            proof {
                assert(out@ + (seq![c] + spec_first_lines(s@.skip(i + 1), newlines_left as int))
                    =~= out@.push(c) + spec_first_lines(s@.skip(i + 1), newlines_left as int));
            }
            out.push(c);
            i = i + 1;
        }
    }
    out
}

/// A vector of `n` copies of `c`.
fn repeat_char(c: char, n: usize) -> (r: Vec<char>)
    ensures
        r@ == spec_repeat(c, n as int),
{
    let mut out: Vec<char> = Vec::new();
    let mut i: usize = 0;
    while i < n
        invariant
            0 <= i <= n,
            out@ =~= spec_repeat(c, i as int),
        decreases n - i,
    {
        out.push(c);
        i = i + 1;
        proof {
            assert(out@ =~= spec_repeat(c, i as int));
        }
    }
    out
}

/// Render the `at line N [in SOURCE]` note of a location.
fn location_info_string(location: &CodeLocation) -> (r: String)
    ensures
        r@ == spec_location_info(*location),
{
    let mut out = String::from_str("at line ");
    let line = usize_to_string(location.line);
    out.append(line.as_str());
    match &location.source {
        Some(src) => {
            out.append(" in ");
            out.append(src.as_str());
        },
        None => {},
    }
    out
}

/// Render the caret underline of a location.
fn error_indicator_string(location: &CodeLocation) -> (r: String)
    ensures
        r@ == spec_error_indicator(*location),
{
    let end: usize = match location.end_pos {
        Some(e) => e,
        None => if location.start_pos < usize::MAX {
            location.start_pos + 1
        } else {
            location.start_pos
        },
    };
    let width: usize = if end > location.start_pos {
        end - location.start_pos
    } else {
        1
    };
    let spaces = repeat_char(' ', if location.column > 0 {
        location.column - 1
    } else {
        0
    });
    let carets = repeat_char('^', width);
    let mut out = chars_to_string(&spaces);
    let carets_s = chars_to_string(&carets);
    out.append(carets_s.as_str());
    out
}

/// Format a standard error: the message and location note, then the source
/// lines up to the error line in a fenced block under a caret underline.
pub fn format_standard_error(message: &str, forthic: &str, location: &CodeLocation) -> (r: String)
    ensures
        r@ == spec_standard_error(message@, forthic@, *location),
{
    let forthic_chars = string_to_chars(forthic);
    let context = first_lines_chars(&forthic_chars, location.line);
    let context_s = chars_to_string(&context);
    let location_info = location_info_string(location);
    let indicator = error_indicator_string(location);
    let mut out = String::from_str(message);
    out.append(" ");
    out.append(location_info.as_str());
    out.append(":\n```\n");
    out.append(context_s.as_str());
    out.append("\n");
    out.append(indicator.as_str());
    out.append("\n```");
    out
}

/// The two-block diagnostic of an error inside a definition: the definition
/// site, then the call site under a `Called from` separator when known.
pub open spec fn spec_word_execution_error(
    message: Seq<char>,
    forthic: Seq<char>,
    call_location: Option<CodeLocation>,
    def_location: CodeLocation,
) -> Seq<char> {
    let def_block = message + " "@ + spec_location_info(def_location) + ":\n```\n"@
        + spec_first_lines(forthic, def_location.line as int) + "\n"@ + spec_error_indicator(
        def_location,
    ) + "\n```"@;
    match call_location {
        Some(call_loc) => {
            let call_note = match call_loc.source {
                Some(src) => "line "@ + udec(call_loc.line as nat) + " in "@ + src@,
                None => "line "@ + udec(call_loc.line as nat),
            };
            def_block + "\nCalled from "@ + call_note + ":\n```\n"@ + spec_first_lines(
                forthic,
                call_loc.line as int,
            ) + "\n"@ + spec_error_indicator(call_loc) + "\n```"@
        },
        None => def_block,
    }
}

/// Format a word-execution error: the definition-site block, then the
/// call-site block joined by a `Called from` separator when the call site
/// is known.
pub fn format_word_execution_error(
    message: &str,
    forthic: &str,
    call_location: Option<&CodeLocation>,
    def_location: &CodeLocation,
) -> (r: String)
    ensures
        r@ == spec_word_execution_error(
            message@,
            forthic@,
            match call_location {
                Some(l) => Some(*l),
                None => None,
            },
            *def_location,
        ),
{
    let forthic_chars = string_to_chars(forthic);
    let def_context = first_lines_chars(&forthic_chars, def_location.line);
    let def_context_s = chars_to_string(&def_context);
    let def_info = location_info_string(def_location);
    let def_indicator = error_indicator_string(def_location);
    let mut out = String::from_str(message);
    out.append(" ");
    out.append(def_info.as_str());
    out.append(":\n```\n");
    out.append(def_context_s.as_str());
    out.append("\n");
    out.append(def_indicator.as_str());
    out.append("\n```");
    match call_location {
        Some(call_loc) => {
            out.append("\nCalled from ");
            out.append("line ");
            let line = usize_to_string(call_loc.line);
            out.append(line.as_str());
            match &call_loc.source {
                Some(src) => {
                    out.append(" in ");
                    out.append(src.as_str());
                },
                None => {},
            }
            out.append(":\n```\n");
            let call_context = first_lines_chars(&forthic_chars, call_loc.line);
            let call_context_s = chars_to_string(&call_context);
            out.append(call_context_s.as_str());
            out.append("\n");
            let call_indicator = error_indicator_string(call_loc);
            out.append(call_indicator.as_str());
            out.append("\n```");
        },
        None => {},
    }
    out
}

} // verus!
