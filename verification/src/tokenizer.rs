//! The tokenizer: a lexical state machine turning source text into typed,
//! positioned tokens.
//!
//! The machine is specified as a pure function over the character sequence
//! and a cursor state; the executable transitions mirror that function step
//! by step, so `next_token` returns exactly what the specification names.

use vstd::prelude::*;
use vstd::string::StringExecFns;
use crate::chars::{chars_to_string, string_to_chars};
use crate::errors::{CodeLocation, ForthicError};

verus! {

/// The kinds of token the tokenizer produces.
#[derive(Debug, Clone, Copy, PartialEq, Eq, Structural)]
pub enum TokenType {
    String,
    Comment,
    StartArray,
    EndArray,
    StartModule,
    EndModule,
    StartDef,
    EndDef,
    StartMemo,
    Word,
    DotSymbol,
    Eos,
}

/// A token: its kind, its text, and where it stood in the source.
#[derive(Debug)]
pub struct Token {
    pub token_type: TokenType,
    pub string: String,
    pub location: CodeLocation,
}

impl Token {
    /// Assemble a token.
    pub fn new(token_type: TokenType, string: String, location: CodeLocation) -> (r: Self)
        ensures
            r.token_type == token_type,
            r.string == string,
            r.location == location,
    {
        Self { token_type, string, location }
    }
}

impl Clone for Token {
    fn clone(&self) -> (r: Self)
        ensures
            r.token_type == self.token_type,
            r.string@ == self.string@,
            r.location == self.location,
    {
        Self {
            token_type: self.token_type,
            string: self.string.clone(),
            location: self.location.clone(),
        }
    }
}

/// The cursor of the state machine: the position in the input, the line
/// and column it stands at, and the line, column and position at which the
/// token being gathered started.
#[derive(Debug, Clone, Copy, PartialEq, Eq, Structural)]
pub struct TkState {
    pub pos: usize,
    pub line: usize,
    pub column: usize,
    pub tok_pos: usize,
    pub tok_line: usize,
    pub tok_column: usize,
}

/// What a run of the state machine yields: a token kind or a lexical
/// error, the token text, and the state after.
pub ghost struct TkOut {
    pub token_type: TokenType,
    pub text: Seq<char>,
    pub loc_len: int,
    pub err: Option<TkErrKind>,
    pub st: TkState,
}

/// The lexical failures.
#[derive(Debug, Clone, Copy, PartialEq, Eq, Structural)]
pub enum TkErrKind {
    /// A string literal still open at the end of the input.
    UnterminatedString,
    /// A definition or memo name with a forbidden character, or none at
    /// all before the input ended.
    InvalidWordName,
}

/// Whitespace separates tokens: blanks, tabs, line ends, parentheses and
/// commas.
pub open spec fn is_ws_char(c: char) -> bool {
    c == ' ' || c == '\t' || c == '\n' || c == '\r' || c == '(' || c == ')' || c == ','
}

/// The three interchangeable string delimiters.
pub open spec fn is_quote_char(c: char) -> bool {
    c == '"' || c == '\'' || c == '^'
}

/// The characters that end a word and may not appear in definition names.
pub open spec fn is_delimiter_char(c: char) -> bool {
    c == ';' || c == '[' || c == ']' || c == '{' || c == '}'
}

/// One more, capped at the top of the range.
pub open spec fn sat_inc(x: usize) -> usize {
    if x < usize::MAX {
        (x + 1) as usize
    } else {
        x
    }
}

/// One less, capped at zero.
pub open spec fn sat_dec(x: usize) -> usize {
    if x > 0 {
        (x - 1) as usize
    } else {
        0
    }
}

/// Step the cursor forward over one character: past a line end the line
/// advances and the column resets to one.
pub open spec fn adv1(s: Seq<char>, st: TkState) -> TkState {
    if st.pos < s.len() && s[st.pos as int] == '\n' {
        TkState { pos: sat_inc(st.pos), line: sat_inc(st.line), column: 1, ..st }
    } else {
        TkState { pos: sat_inc(st.pos), column: sat_inc(st.column), ..st }
    }
}

/// Step the cursor back over one character, undoing `adv1` as far as the
/// column can be known.
pub open spec fn back1(s: Seq<char>, st: TkState) -> TkState
    recommends
        st.pos > 0,
{
    let p = (st.pos - 1) as usize;
    if p < s.len() && s[p as int] == '\n' {
        TkState { pos: p, line: sat_dec(st.line), column: 1, ..st }
    } else {
        TkState { pos: p, column: sat_dec(st.column), ..st }
    }
}

/// Record the start of a token at the cursor.
pub open spec fn note_start(st: TkState) -> TkState {
    TkState { tok_pos: st.pos, tok_line: st.line, tok_column: st.column, ..st }
}

/// Text with `&lt;` and `&gt;` read as `<` and `>`: the input is unescaped
/// this way before tokenization.
pub open spec fn unescaped(s: Seq<char>, i: int) -> Seq<char>
    decreases s.len() - i,
{
    if i < 0 || i >= s.len() {
        Seq::empty()
    } else if i + 4 <= s.len() && s[i] == '&' && s[i + 1] == 'l' && s[i + 2] == 't' && s[i + 3]
        == ';' {
        seq!['<'] + unescaped(s, i + 4)
    } else if i + 4 <= s.len() && s[i] == '&' && s[i + 1] == 'g' && s[i + 2] == 't' && s[i + 3]
        == ';' {
        seq!['>'] + unescaped(s, i + 4)
    } else {
        seq![s[i]] + unescaped(s, i + 1)
    }
}

/// Unescape `&lt;` and `&gt;` in a character sequence.
pub fn unescape_chars(v: &Vec<char>) -> (r: Vec<char>)
    ensures
        r@ == unescaped(v@, 0),
{
    let mut out: Vec<char> = Vec::new();
    let mut i: usize = 0;
    proof {
        assert(out@ + unescaped(v@, 0) =~= unescaped(v@, 0));
    }
    while i < v.len()
        invariant
            i <= v@.len(),
            unescaped(v@, 0) == out@ + unescaped(v@, i as int),
        decreases v@.len() - i,
    {
        if v.len() >= 4 && i <= v.len() - 4 && v[i] == '&' && v[i + 1] == 'l' && v[i + 2] == 't'
            && v[i + 3] == ';' {
            out.push('<');
            i = i + 4;
            proof {
                assert(out@ + unescaped(v@, i as int) =~= out@.drop_last() + (seq!['<']
                    + unescaped(v@, i as int)));
            }
        } else if v.len() >= 4 && i <= v.len() - 4 && v[i] == '&' && v[i + 1] == 'g' && v[i + 2]
            == 't' && v[i + 3] == ';' {
            out.push('>');
            i = i + 4;
            proof {
                assert(out@ + unescaped(v@, i as int) =~= out@.drop_last() + (seq!['>']
                    + unescaped(v@, i as int)));
            }
        } else {
            let c = v[i];
            out.push(c);
            i = i + 1;
            proof {
                assert(out@ + unescaped(v@, i as int) =~= out@.drop_last() + (seq![c] + unescaped(
                    v@,
                    i as int,
                )));
            }
        }
    }
    proof {
        assert(unescaped(v@, i as int) =~= Seq::<char>::empty());
        assert(out@ + Seq::<char>::empty() =~= out@);
    }
    out
}

/// Step the cursor forward over `n` characters.
pub open spec fn adv_n(s: Seq<char>, st: TkState, n: nat) -> TkState
    decreases n,
{
    if n == 0 {
        st
    } else {
        adv_n(s, adv1(s, st), (n - 1) as nat)
    }
}

/// Capped addition.
pub open spec fn sat_add(a: usize, b: usize) -> usize {
    if a + b <= usize::MAX {
        (a + b) as usize
    } else {
        usize::MAX
    }
}

/// The location of the token that started at the recorded start, spanning
/// `loc_len` characters, against a reference location.
pub open spec fn spec_token_location(
    st: TkState,
    loc_len: int,
    reference: CodeLocation,
) -> CodeLocation {
    let start = sat_add(st.tok_pos, reference.start_pos);
    CodeLocation {
        source: reference.source,
        line: st.tok_line,
        column: st.tok_column,
        start_pos: start,
        end_pos: Some(sat_add(start, loc_len as usize)),
    }
}

/// What one run of the state machine yields, from a cursor state over the
/// input: the next token, or a lexical error. This is the specification
/// that `Tokenizer::next_token` is proved to follow exactly.
pub open spec fn spec_next(s: Seq<char>, st: TkState) -> TkOut
    decreases s.len() - st.pos, 2int,
{
    if st.pos >= s.len() || st.pos == usize::MAX {
        TkOut { token_type: TokenType::Eos, text: Seq::empty(), loc_len: 0, err: None, st }
    } else {
        let ch = s[st.pos as int];
        let noted = note_start(st);
        let a = adv1(s, noted);
        if is_ws_char(ch) {
            spec_next(s, a)
        } else if ch == '#' {
            spec_comment(s, note_start(a), Seq::empty())
        } else if ch == ':' {
            spec_start_def(s, a, false)
        } else if ch == '@' && a.pos < s.len() && s[a.pos as int] == ':' {
            spec_start_def(s, adv1(s, a), true)
        } else if ch == ';' {
            TkOut { token_type: TokenType::EndDef, text: seq![ch], loc_len: 1, err: None, st: a }
        } else if ch == '[' {
            TkOut {
                token_type: TokenType::StartArray,
                text: seq![ch],
                loc_len: 1,
                err: None,
                st: a,
            }
        } else if ch == ']' {
            TkOut { token_type: TokenType::EndArray, text: seq![ch], loc_len: 1, err: None, st: a }
        } else if ch == '{' {
            spec_gather_module(s, note_start(a), Seq::empty())
        } else if ch == '}' {
            TkOut {
                token_type: TokenType::EndModule,
                text: seq![ch],
                loc_len: 1,
                err: None,
                st: a,
            }
        } else if is_quote_char(ch) && st.pos + 2 < s.len() && s[st.pos + 1] == ch && s[st.pos + 2]
            == ch {
            spec_gather_triple(s, note_start(adv_n(s, a, 2)), ch, Seq::empty())
        } else if is_quote_char(ch) {
            spec_gather_string(s, note_start(a), ch, Seq::empty())
        } else if ch == '.' {
            spec_gather_dot(s, note_start(back1(s, a)), Seq::empty())
        } else {
            spec_gather_word(s, note_start(back1(s, a)), Seq::empty())
        }
    }
}

/// Gather a comment: everything up to the next line end, exclusive; the
/// line end itself is put back for the whitespace rules.
pub open spec fn spec_comment(s: Seq<char>, st: TkState, acc: Seq<char>) -> TkOut
    decreases s.len() - st.pos, 0int,
{
    if st.pos >= s.len() || st.pos == usize::MAX {
        TkOut { token_type: TokenType::Comment, text: acc, loc_len: acc.len() as int, err: None, st }
    } else {
        let ch = s[st.pos as int];
        let a = adv1(s, st);
        if ch == '\n' {
            TkOut {
                token_type: TokenType::Comment,
                text: acc,
                loc_len: acc.len() as int,
                err: None,
                st: back1(s, a),
            }
        } else {
            spec_comment(s, a, acc.push(ch))
        }
    }
}

/// After `:` or `@:`: skip whitespace up to the definition name; a quote
/// or the end of the input is an invalid word name.
pub open spec fn spec_start_def(s: Seq<char>, st: TkState, memo: bool) -> TkOut
    decreases s.len() - st.pos, 1int,
{
    let tt = if memo {
        TokenType::StartMemo
    } else {
        TokenType::StartDef
    };
    if st.pos >= s.len() || st.pos == usize::MAX {
        TkOut { token_type: tt, text: Seq::empty(), loc_len: 0, err: Some(
            TkErrKind::InvalidWordName,
        ), st }
    } else {
        let ch = s[st.pos as int];
        let a = adv1(s, st);
        if is_ws_char(ch) {
            spec_start_def(s, a, memo)
        } else if is_quote_char(ch) {
            TkOut { token_type: tt, text: Seq::empty(), loc_len: 0, err: Some(
                TkErrKind::InvalidWordName,
            ), st: a }
        } else {
            spec_gather_name(s, note_start(back1(s, a)), memo, Seq::empty())
        }
    }
}

/// Gather a definition or memo name: up to whitespace or the end of the
/// input; quotes and delimiters are invalid in a name.
pub open spec fn spec_gather_name(s: Seq<char>, st: TkState, memo: bool, acc: Seq<char>) -> TkOut
    decreases s.len() - st.pos, 0int,
{
    let tt = if memo {
        TokenType::StartMemo
    } else {
        TokenType::StartDef
    };
    if st.pos >= s.len() || st.pos == usize::MAX {
        TkOut { token_type: tt, text: acc, loc_len: acc.len() as int, err: None, st }
    } else {
        let ch = s[st.pos as int];
        let a = adv1(s, st);
        if is_ws_char(ch) {
            TkOut { token_type: tt, text: acc, loc_len: acc.len() as int, err: None, st: a }
        } else if is_quote_char(ch) || is_delimiter_char(ch) {
            TkOut { token_type: tt, text: acc, loc_len: acc.len() as int, err: Some(
                TkErrKind::InvalidWordName,
            ), st: a }
        } else {
            spec_gather_name(s, a, memo, acc.push(ch))
        }
    }
}

/// Gather a module name after `{`: up to whitespace or a closing brace,
/// which is put back.
pub open spec fn spec_gather_module(s: Seq<char>, st: TkState, acc: Seq<char>) -> TkOut
    decreases s.len() - st.pos, 0int,
{
    if st.pos >= s.len() || st.pos == usize::MAX {
        TkOut {
            token_type: TokenType::StartModule,
            text: acc,
            loc_len: acc.len() as int,
            err: None,
            st,
        }
    } else {
        let ch = s[st.pos as int];
        let a = adv1(s, st);
        if is_ws_char(ch) {
            TkOut {
                token_type: TokenType::StartModule,
                text: acc,
                loc_len: acc.len() as int,
                err: None,
                st: a,
            }
        } else if ch == '}' {
            TkOut {
                token_type: TokenType::StartModule,
                text: acc,
                loc_len: acc.len() as int,
                err: None,
                st: back1(s, a),
            }
        } else {
            spec_gather_module(s, a, acc.push(ch))
        }
    }
}

/// Gather a triple-quoted string: closed by the next three consecutive
/// delimiters, with the greedy rule that a fourth consecutive delimiter
/// makes the first count as content and the scan go on.
pub open spec fn spec_gather_triple(s: Seq<char>, st: TkState, delim: char, acc: Seq<char>)
    -> TkOut
    decreases s.len() - st.pos, 0int,
{
    if st.pos >= s.len() || st.pos == usize::MAX {
        TkOut {
            token_type: TokenType::String,
            text: acc,
            loc_len: acc.len() as int,
            err: Some(TkErrKind::UnterminatedString),
            st,
        }
    } else {
        let ch = s[st.pos as int];
        if ch == delim && st.pos + 2 < s.len() && s[st.pos + 1] == delim && s[st.pos + 2]
            == delim {
            if st.pos + 3 < s.len() && s[st.pos + 3] == delim {
                spec_gather_triple(s, adv1(s, st), delim, acc.push(delim))
            } else {
                TkOut {
                    token_type: TokenType::String,
                    text: acc,
                    loc_len: acc.len() as int,
                    err: None,
                    st: adv_n(s, st, 3),
                }
            }
        } else {
            spec_gather_triple(s, adv1(s, st), delim, acc.push(ch))
        }
    }
}

/// Gather a single-quoted string: closed by the next occurrence of the
/// same delimiter; the end of the input leaves it unterminated.
pub open spec fn spec_gather_string(s: Seq<char>, st: TkState, delim: char, acc: Seq<char>)
    -> TkOut
    decreases s.len() - st.pos, 0int,
{
    if st.pos >= s.len() || st.pos == usize::MAX {
        TkOut {
            token_type: TokenType::String,
            text: acc,
            loc_len: acc.len() as int,
            err: Some(TkErrKind::UnterminatedString),
            st,
        }
    } else {
        let ch = s[st.pos as int];
        let a = adv1(s, st);
        if ch == delim {
            TkOut {
                token_type: TokenType::String,
                text: acc,
                loc_len: acc.len() as int,
                err: None,
                st: a,
            }
        } else {
            spec_gather_string(s, a, delim, acc.push(ch))
        }
    }
}

/// Gather a word: up to whitespace or a delimiter (put back). If the text
/// gathered so far contains `T` and a `[` arrives, the bracketed range is
/// taken verbatim, so a timezone-qualified datetime stays one token.
pub open spec fn spec_gather_word(s: Seq<char>, st: TkState, acc: Seq<char>) -> TkOut
    decreases s.len() - st.pos, 1int,
{
    if st.pos >= s.len() || st.pos == usize::MAX {
        TkOut { token_type: TokenType::Word, text: acc, loc_len: acc.len() as int, err: None, st }
    } else {
        let ch = s[st.pos as int];
        let a = adv1(s, st);
        if is_ws_char(ch) {
            TkOut {
                token_type: TokenType::Word,
                text: acc,
                loc_len: acc.len() as int,
                err: None,
                st: a,
            }
        } else if ch == '[' && acc.contains('T') {
            spec_word_bracket(s, a, acc.push(ch))
        } else if is_delimiter_char(ch) || ch == '#' {
            TkOut {
                token_type: TokenType::Word,
                text: acc,
                loc_len: acc.len() as int,
                err: None,
                st: back1(s, a),
            }
        } else {
            spec_gather_word(s, a, acc.push(ch))
        }
    }
}

/// The bracketed stretch of a word: everything through the closing
/// bracket is taken verbatim, then the word goes on.
pub open spec fn spec_word_bracket(s: Seq<char>, st: TkState, acc: Seq<char>) -> TkOut
    decreases s.len() - st.pos, 0int,
{
    if st.pos >= s.len() || st.pos == usize::MAX {
        TkOut { token_type: TokenType::Word, text: acc, loc_len: acc.len() as int, err: None, st }
    } else {
        let ch = s[st.pos as int];
        let a = adv1(s, st);
        let acc2 = acc.push(ch);
        if ch == ']' {
            spec_gather_word(s, a, acc2)
        } else {
            spec_word_bracket(s, a, acc2)
        }
    }
}

/// Gather a dot symbol: like a word, but the leading dot is stripped from
/// the text; a bare dot degrades to a plain word. The recorded span still
/// covers the dot.
pub open spec fn spec_gather_dot(s: Seq<char>, st: TkState, acc: Seq<char>) -> TkOut
    decreases s.len() - st.pos, 0int,
{
    if st.pos >= s.len() || st.pos == usize::MAX {
        spec_dot_finish(acc, st)
    } else {
        let ch = s[st.pos as int];
        let a = adv1(s, st);
        if is_ws_char(ch) {
            spec_dot_finish(acc, a)
        } else if is_delimiter_char(ch) || ch == '#' {
            spec_dot_finish(acc, back1(s, a))
        } else {
            spec_gather_dot(s, a, acc.push(ch))
        }
    }
}

/// Close a dot symbol: fewer than two characters make it a plain word,
/// otherwise the text drops the leading dot.
pub open spec fn spec_dot_finish(acc: Seq<char>, st: TkState) -> TkOut {
    if acc.len() < 2 {
        TkOut { token_type: TokenType::Word, text: acc, loc_len: acc.len() as int, err: None, st }
    } else {
        TkOut {
            token_type: TokenType::DotSymbol,
            text: acc.skip(1),
            loc_len: acc.len() as int,
            err: None,
            st,
        }
    }
}

/// What an executable scan yields; mirrors `TkOut` with the text held in
/// a vector.
pub struct ScanOut {
    pub token_type: TokenType,
    pub text: Vec<char>,
    pub loc_len: usize,
    pub err: Option<TkErrKind>,
    pub st: TkState,
}

/// Whether an executable scan result carries exactly a specified outcome.
pub open spec fn out_matches(r: ScanOut, o: TkOut) -> bool {
    &&& r.token_type == o.token_type
    &&& r.text@ == o.text
    &&& r.loc_len == o.loc_len
    &&& r.err == o.err
    &&& r.st == o.st
}

/// Step the cursor forward over one character.
fn e_adv1(s: &Vec<char>, st: TkState) -> (r: TkState)
    ensures
        r == adv1(s@, st),
{
    let nl = st.pos < s.len() && s[st.pos] == '\n';
    let pos = if st.pos < usize::MAX {
        st.pos + 1
    } else {
        st.pos
    };
    if nl {
        TkState { pos, line: if st.line < usize::MAX {
            st.line + 1
        } else {
            st.line
        }, column: 1, ..st }
    } else {
        TkState { pos, column: if st.column < usize::MAX {
            st.column + 1
        } else {
            st.column
        }, ..st }
    }
}

/// Step the cursor back over one character.
fn e_back1(s: &Vec<char>, st: TkState) -> (r: TkState)
    requires
        st.pos > 0,
    ensures
        r == back1(s@, st),
{
    let p = st.pos - 1;
    let nl = p < s.len() && s[p] == '\n';
    if nl {
        TkState { pos: p, line: if st.line > 0 {
            st.line - 1
        } else {
            0
        }, column: 1, ..st }
    } else {
        TkState { pos: p, column: if st.column > 0 {
            st.column - 1
        } else {
            0
        }, ..st }
    }
}

/// Record the start of a token at the cursor.
fn e_note(st: TkState) -> (r: TkState)
    ensures
        r == note_start(st),
{
    TkState { tok_pos: st.pos, tok_line: st.line, tok_column: st.column, ..st }
}

/// Whether a character separates tokens.
fn e_is_ws(c: char) -> (r: bool)
    ensures
        r == is_ws_char(c),
{
    c == ' ' || c == '\t' || c == '\n' || c == '\r' || c == '(' || c == ')' || c == ','
}

/// Whether a character is a string delimiter.
fn e_is_quote(c: char) -> (r: bool)
    ensures
        r == is_quote_char(c),
{
    c == '"' || c == '\'' || c == '^'
}

/// Whether a character ends a word.
fn e_is_delim(c: char) -> (r: bool)
    ensures
        r == is_delimiter_char(c),
{
    c == ';' || c == '[' || c == ']' || c == '{' || c == '}'
}

/// Whether a character sequence contains a character.
fn chars_contain(v: &Vec<char>, c: char) -> (r: bool)
    ensures
        r == v@.contains(c),
{
    let mut i: usize = 0;
    while i < v.len()
        invariant
            i <= v@.len(),
            forall|j: int| 0 <= j < i ==> v@[j] != c,
        decreases v@.len() - i,
    {
        if v[i] == c {
            return true;
        }
        i = i + 1;
    }
    proof {
        assert(!v@.contains(c));
    }
    false
}

/// Run the state machine for one token.
fn scan_next(s: &Vec<char>, st: TkState) -> (r: ScanOut)
    ensures
        out_matches(r, spec_next(s@, st)),
    decreases s@.len() - st.pos, 2int,
{
    if st.pos >= s.len() {
        proof {
            let o = spec_next(s@, st);
            assert(o.token_type == TokenType::Eos);
            assert(o.st == st);
        }
        ScanOut { token_type: TokenType::Eos, text: Vec::new(), loc_len: 0, err: None, st }
    } else {
        let ch = s[st.pos];
        let noted = e_note(st);
        let a = e_adv1(s, noted);
        if e_is_ws(ch) {
            proof {
                assert(spec_next(s@, st) == spec_next(s@, a));
            }
            scan_next(s, a)
        } else if ch == '#' {
            scan_comment(s, e_note(a), Vec::new())
        } else if ch == ':' {
            scan_start_def(s, a, false)
        } else if ch == '@' && a.pos < s.len() && s[a.pos] == ':' {
            scan_start_def(s, e_adv1(s, a), true)
        } else if ch == ';' {
            let mut text: Vec<char> = Vec::new();
            text.push(ch);
            ScanOut { token_type: TokenType::EndDef, text, loc_len: 1, err: None, st: a }
        } else if ch == '[' {
            let mut text: Vec<char> = Vec::new();
            text.push(ch);
            ScanOut { token_type: TokenType::StartArray, text, loc_len: 1, err: None, st: a }
        } else if ch == ']' {
            let mut text: Vec<char> = Vec::new();
            text.push(ch);
            ScanOut { token_type: TokenType::EndArray, text, loc_len: 1, err: None, st: a }
        } else if ch == '{' {
            scan_gather_module(s, e_note(a), Vec::new())
        } else if ch == '}' {
            let mut text: Vec<char> = Vec::new();
            text.push(ch);
            ScanOut { token_type: TokenType::EndModule, text, loc_len: 1, err: None, st: a }
        } else if e_is_quote(ch) && s.len() >= 3 && st.pos < s.len() - 2 && s[st.pos + 1] == ch
            && s[st.pos + 2] == ch {
            proof {
                assert(adv_n(s@, a, 2) == adv_n(s@, adv1(s@, a), 1));
                assert(adv_n(s@, adv1(s@, a), 1) == adv_n(s@, adv1(s@, adv1(s@, a)), 0));
                assert(adv_n(s@, adv1(s@, adv1(s@, a)), 0) == adv1(s@, adv1(s@, a)));
            }
            scan_gather_triple(s, e_note(e_adv1(s, e_adv1(s, a))), ch, Vec::new())
        } else if e_is_quote(ch) {
            scan_gather_string(s, e_note(a), ch, Vec::new())
        } else if ch == '.' {
            scan_gather_dot(s, e_note(e_back1(s, a)), Vec::new())
        } else {
            scan_gather_word(s, e_note(e_back1(s, a)), Vec::new())
        }
    }
}

/// Gather a comment.
fn scan_comment(s: &Vec<char>, st: TkState, acc: Vec<char>) -> (r: ScanOut)
    requires
        acc@.len() <= st.pos,
    ensures
        out_matches(r, spec_comment(s@, st, acc@)),
    decreases s@.len() - st.pos, 0int,
{
    if st.pos >= s.len() {
        let n = acc.len();
        ScanOut { token_type: TokenType::Comment, text: acc, loc_len: n, err: None, st }
    } else {
        let ch = s[st.pos];
        let a = e_adv1(s, st);
        if ch == '\n' {
            let n = acc.len();
            let st2 = e_back1(s, a);
            ScanOut { token_type: TokenType::Comment, text: acc, loc_len: n, err: None, st: st2 }
        } else {
            let mut acc2 = acc;
            acc2.push(ch);
            scan_comment(s, a, acc2)
        }
    }
}

/// Skip whitespace up to a definition or memo name.
fn scan_start_def(s: &Vec<char>, st: TkState, memo: bool) -> (r: ScanOut)
    ensures
        out_matches(r, spec_start_def(s@, st, memo)),
    decreases s@.len() - st.pos, 1int,
{
    let tt = if memo {
        TokenType::StartMemo
    } else {
        TokenType::StartDef
    };
    if st.pos >= s.len() {
        ScanOut { token_type: tt, text: Vec::new(), loc_len: 0, err: Some(
            TkErrKind::InvalidWordName,
        ), st }
    } else {
        let ch = s[st.pos];
        let a = e_adv1(s, st);
        if e_is_ws(ch) {
            scan_start_def(s, a, memo)
        } else if e_is_quote(ch) {
            ScanOut { token_type: tt, text: Vec::new(), loc_len: 0, err: Some(
                TkErrKind::InvalidWordName,
            ), st: a }
        } else {
            scan_gather_name(s, e_note(e_back1(s, a)), memo, Vec::new())
        }
    }
}

/// Gather a definition or memo name.
fn scan_gather_name(s: &Vec<char>, st: TkState, memo: bool, acc: Vec<char>) -> (r: ScanOut)
    ensures
        out_matches(r, spec_gather_name(s@, st, memo, acc@)),
    decreases s@.len() - st.pos, 0int,
{
    let tt = if memo {
        TokenType::StartMemo
    } else {
        TokenType::StartDef
    };
    if st.pos >= s.len() {
        let n = acc.len();
        ScanOut { token_type: tt, text: acc, loc_len: n, err: None, st }
    } else {
        let ch = s[st.pos];
        let a = e_adv1(s, st);
        if e_is_ws(ch) {
            let n = acc.len();
            ScanOut { token_type: tt, text: acc, loc_len: n, err: None, st: a }
        } else if e_is_quote(ch) || e_is_delim(ch) {
            let n = acc.len();
            ScanOut { token_type: tt, text: acc, loc_len: n, err: Some(
                TkErrKind::InvalidWordName,
            ), st: a }
        } else {
            let mut acc2 = acc;
            acc2.push(ch);
            scan_gather_name(s, a, memo, acc2)
        }
    }
}

/// Gather a module name.
fn scan_gather_module(s: &Vec<char>, st: TkState, acc: Vec<char>) -> (r: ScanOut)
    ensures
        out_matches(r, spec_gather_module(s@, st, acc@)),
    decreases s@.len() - st.pos, 0int,
{
    if st.pos >= s.len() {
        let n = acc.len();
        ScanOut { token_type: TokenType::StartModule, text: acc, loc_len: n, err: None, st }
    } else {
        let ch = s[st.pos];
        let a = e_adv1(s, st);
        if e_is_ws(ch) {
            let n = acc.len();
            ScanOut { token_type: TokenType::StartModule, text: acc, loc_len: n, err: None, st: a }
        } else if ch == '}' {
            let n = acc.len();
            let st2 = e_back1(s, a);
            ScanOut {
                token_type: TokenType::StartModule,
                text: acc,
                loc_len: n,
                err: None,
                st: st2,
            }
        } else {
            let mut acc2 = acc;
            acc2.push(ch);
            scan_gather_module(s, a, acc2)
        }
    }
}

/// Gather a triple-quoted string.
fn scan_gather_triple(s: &Vec<char>, st: TkState, delim: char, acc: Vec<char>) -> (r: ScanOut)
    ensures
        out_matches(r, spec_gather_triple(s@, st, delim, acc@)),
    decreases s@.len() - st.pos, 0int,
{
    if st.pos >= s.len() {
        let n = acc.len();
        ScanOut { token_type: TokenType::String, text: acc, loc_len: n, err: Some(
            TkErrKind::UnterminatedString,
        ), st }
    } else {
        let ch = s[st.pos];
        if ch == delim && s.len() >= 3 && st.pos < s.len() - 2 && s[st.pos + 1] == delim && s[st.pos
            + 2] == delim {
            if s.len() >= 4 && st.pos < s.len() - 3 && s[st.pos + 3] == delim {
                let a = e_adv1(s, st);
                let mut acc2 = acc;
                acc2.push(delim);
                scan_gather_triple(s, a, delim, acc2)
            } else {
                let n = acc.len();
                let st2 = e_adv1(s, e_adv1(s, e_adv1(s, st)));
                proof {
                    assert(adv_n(s@, st, 3) == adv1(s@, adv1(s@, adv1(s@, st)))) by {
                        assert(adv_n(s@, st, 3) == adv_n(s@, adv1(s@, st), 2));
                        assert(adv_n(s@, adv1(s@, st), 2) == adv_n(s@, adv1(s@, adv1(s@, st)), 1));
                        assert(adv_n(s@, adv1(s@, adv1(s@, st)), 1) == adv_n(
                            s@,
                            adv1(s@, adv1(s@, adv1(s@, st))),
                            0,
                        ));
                    }
                }
                ScanOut { token_type: TokenType::String, text: acc, loc_len: n, err: None, st: st2 }
            }
        } else {
            let a = e_adv1(s, st);
            let mut acc2 = acc;
            acc2.push(ch);
            scan_gather_triple(s, a, delim, acc2)
        }
    }
}

/// Gather a single-quoted string.
fn scan_gather_string(s: &Vec<char>, st: TkState, delim: char, acc: Vec<char>) -> (r: ScanOut)
    ensures
        out_matches(r, spec_gather_string(s@, st, delim, acc@)),
    decreases s@.len() - st.pos, 0int,
{
    if st.pos >= s.len() {
        let n = acc.len();
        ScanOut { token_type: TokenType::String, text: acc, loc_len: n, err: Some(
            TkErrKind::UnterminatedString,
        ), st }
    } else {
        let ch = s[st.pos];
        let a = e_adv1(s, st);
        if ch == delim {
            let n = acc.len();
            ScanOut { token_type: TokenType::String, text: acc, loc_len: n, err: None, st: a }
        } else {
            let mut acc2 = acc;
            acc2.push(ch);
            scan_gather_string(s, a, delim, acc2)
        }
    }
}

/// Gather a word.
fn scan_gather_word(s: &Vec<char>, st: TkState, acc: Vec<char>) -> (r: ScanOut)
    ensures
        out_matches(r, spec_gather_word(s@, st, acc@)),
    decreases s@.len() - st.pos, 1int,
{
    if st.pos >= s.len() {
        let n = acc.len();
        ScanOut { token_type: TokenType::Word, text: acc, loc_len: n, err: None, st }
    } else {
        let ch = s[st.pos];
        let a = e_adv1(s, st);
        if e_is_ws(ch) {
            let n = acc.len();
            ScanOut { token_type: TokenType::Word, text: acc, loc_len: n, err: None, st: a }
        } else if ch == '[' && chars_contain(&acc, 'T') {
            let mut acc2 = acc;
            acc2.push(ch);
            scan_word_bracket(s, a, acc2)
        } else if e_is_delim(ch) || ch == '#' {
            let n = acc.len();
            let st2 = e_back1(s, a);
            ScanOut { token_type: TokenType::Word, text: acc, loc_len: n, err: None, st: st2 }
        } else {
            let mut acc2 = acc;
            acc2.push(ch);
            scan_gather_word(s, a, acc2)
        }
    }
}

/// Gather the bracketed stretch of a word.
fn scan_word_bracket(s: &Vec<char>, st: TkState, acc: Vec<char>) -> (r: ScanOut)
    ensures
        out_matches(r, spec_word_bracket(s@, st, acc@)),
    decreases s@.len() - st.pos, 0int,
{
    if st.pos >= s.len() {
        let n = acc.len();
        ScanOut { token_type: TokenType::Word, text: acc, loc_len: n, err: None, st }
    } else {
        let ch = s[st.pos];
        let a = e_adv1(s, st);
        let mut acc2 = acc;
        acc2.push(ch);
        if ch == ']' {
            scan_gather_word(s, a, acc2)
        } else {
            scan_word_bracket(s, a, acc2)
        }
    }
}

/// Gather a dot symbol.
fn scan_gather_dot(s: &Vec<char>, st: TkState, acc: Vec<char>) -> (r: ScanOut)
    ensures
        out_matches(r, spec_gather_dot(s@, st, acc@)),
    decreases s@.len() - st.pos, 0int,
{
    if st.pos >= s.len() {
        scan_dot_finish(acc, st)
    } else {
        let ch = s[st.pos];
        let a = e_adv1(s, st);
        if e_is_ws(ch) {
            scan_dot_finish(acc, a)
        } else if e_is_delim(ch) || ch == '#' {
            let st2 = e_back1(s, a);
            scan_dot_finish(acc, st2)
        } else {
            let mut acc2 = acc;
            acc2.push(ch);
            scan_gather_dot(s, a, acc2)
        }
    }
}

/// Close a dot symbol.
fn scan_dot_finish(acc: Vec<char>, st: TkState) -> (r: ScanOut)
    ensures
        out_matches(r, spec_dot_finish(acc@, st)),
{
    let n = acc.len();
    if n < 2 {
        ScanOut { token_type: TokenType::Word, text: acc, loc_len: n, err: None, st }
    } else {
        let mut text: Vec<char> = Vec::new();
        let mut i: usize = 1;
        while i < acc.len()
            invariant
                1 <= i <= acc@.len(),
                text@ =~= acc@.subrange(1, i as int),
            decreases acc@.len() - i,
        {
            text.push(acc[i]);
            i = i + 1;
            proof {
                assert(text@ =~= acc@.subrange(1, i as int));
            }
        }
        proof {
            assert(acc@.subrange(1, acc@.len() as int) =~= acc@.skip(1));
        }
        ScanOut { token_type: TokenType::DotSymbol, text, loc_len: n, err: None, st }
    }
}

/// The lexical state machine over one source text, producing tokens one
/// at a time. `next_token` keeps returning an end-of-stream token once the
/// input is exhausted.
#[derive(Debug)]
pub struct Tokenizer {
    pub reference_location: CodeLocation,
    pub chars: Vec<char>,
    pub input_string: String,
    pub state: TkState,
    pub streaming: bool,
}

impl Tokenizer {
    /// Create a tokenizer over source text. The text is unescaped first:
    /// `&lt;` and `&gt;` become `<` and `>`. An optional reference
    /// location offsets all reported positions; a streaming tokenizer
    /// returns partial string tokens instead of an unterminated-string
    /// error.
    pub fn new(string: String, reference_location: Option<CodeLocation>, streaming: bool) -> (r:
        Self)
        ensures
            r.chars@ == unescaped(string@, 0),
            r.input_string@ == r.chars@,
            r.streaming == streaming,
            r.reference_location == (match reference_location {
                Some(l) => l,
                None => CodeLocation {
                    source: None,
                    line: 1,
                    column: 1,
                    start_pos: 0,
                    end_pos: None,
                },
            }),
            r.state == (TkState {
                pos: 0,
                line: r.reference_location.line,
                column: r.reference_location.column,
                tok_pos: 0,
                tok_line: 0,
                tok_column: 0,
            }),
    {
        let reference_location = match reference_location {
            Some(l) => l,
            None => CodeLocation::default(),
        };
        let raw = string_to_chars(string.as_str());
        let chars = unescape_chars(&raw);
        let input_string = chars_to_string(&chars);
        let state = TkState {
            pos: 0,
            line: reference_location.line,
            column: reference_location.column,
            tok_pos: 0,
            tok_line: 0,
            tok_column: 0,
        };
        Self { reference_location, chars, input_string, state, streaming }
    }

    /// The input being tokenized, after unescaping.
    pub fn get_input_string(&self) -> (r: &str)
        ensures
            r@ == self.input_string@,
    {
        self.input_string.as_str()
    }

    /// Unescape `&lt;` and `&gt;` in source text.
    pub fn unescape_string(s: &str) -> (r: String)
        ensures
            r@ == unescaped(s@, 0),
    {
        let raw = string_to_chars(s);
        let out = unescape_chars(&raw);
        chars_to_string(&out)
    }

    /// Whether a character separates tokens.
    pub fn is_whitespace(&self, ch: char) -> (r: bool)
        ensures
            r == is_ws_char(ch),
    {
        e_is_ws(ch)
    }

    /// Whether a character is a string delimiter.
    pub fn is_quote(&self, ch: char) -> (r: bool)
        ensures
            r == is_quote_char(ch),
    {
        e_is_quote(ch)
    }

    /// Whether three identical string delimiters stand at the index.
    pub fn is_triple_quote(&self, index: usize, ch: char) -> (r: bool)
        ensures
            r == (is_quote_char(ch) && index + 2 < self.chars@.len() && self.chars@[index + 1]
                == ch && self.chars@[index + 2] == ch),
    {
        if !e_is_quote(ch) {
            return false;
        }
        if self.chars.len() < 3 || index >= self.chars.len() - 2 {
            return false;
        }
        self.chars[index + 1] == ch && self.chars[index + 2] == ch
    }

    /// Whether a memo definition opens at the index: `@` followed by `:`.
    pub fn is_start_memo(&self, index: usize) -> (r: bool)
        ensures
            r == (index + 1 < self.chars@.len() && self.chars@[index as int] == '@'
                && self.chars@[index + 1] == ':'),
    {
        if self.chars.len() < 2 || index >= self.chars.len() - 1 {
            return false;
        }
        self.chars[index] == '@' && self.chars[index + 1] == ':'
    }

    /// The location of the token that starts at the recorded position.
    pub fn get_token_location(&self, loc_len: usize) -> (r: CodeLocation)
        ensures
            r == spec_token_location(self.state, loc_len as int, self.reference_location),
    {
        let start = if self.state.tok_pos <= usize::MAX - self.reference_location.start_pos {
            self.state.tok_pos + self.reference_location.start_pos
        } else {
            usize::MAX
        };
        let end = if loc_len <= usize::MAX - start {
            start + loc_len
        } else {
            usize::MAX
        };
        CodeLocation {
            source: match &self.reference_location.source {
                Some(src) => Some(src.clone()),
                None => None,
            },
            line: self.state.tok_line,
            column: self.state.tok_column,
            start_pos: start,
            end_pos: Some(end),
        }
    }

    /// Produce the next token.
    ///
    /// The result is exactly what the state-machine specification
    /// `spec_next` names for the current cursor: the token's kind, text
    /// and location, or the lexical error at that point, with the cursor
    /// left on the specified state. A streaming tokenizer turns an
    /// unterminated string into a partial string token instead of an
    /// error.
    pub fn next_token(&mut self) -> (r: Result<Token, ForthicError>)
        ensures
            final(self).chars == old(self).chars,
            final(self).input_string == old(self).input_string,
            final(self).reference_location == old(self).reference_location,
            final(self).streaming == old(self).streaming,
            final(self).state == spec_next(old(self).chars@, old(self).state).st,
            ({
                let o = spec_next(old(self).chars@, old(self).state);
                let loc = spec_token_location(o.st, o.loc_len, old(self).reference_location);
                match r {
                    Ok(tok) => (o.err is None || (old(self).streaming && o.err == Some(
                        TkErrKind::UnterminatedString,
                    ))) && tok.token_type == o.token_type && tok.string@ == o.text && tok.location
                        == loc,
                    Err(e) => o.err is Some && !(old(self).streaming && o.err == Some(
                        TkErrKind::UnterminatedString,
                    )) && (match o.err {
                        Some(TkErrKind::UnterminatedString) => e matches
                            ForthicError::UnterminatedString { forthic, location, .. }
                            && forthic@ == old(self).input_string@ && location == Some(loc),
                        Some(TkErrKind::InvalidWordName) => e matches
                            ForthicError::InvalidWordName { forthic, location, note, .. }
                            && forthic@ == old(self).input_string@ && location == Some(loc)
                            && note is Some,
                        None => false,
                    }),
                }
            }),
    {
        let out = scan_next(&self.chars, self.state);
        self.state = out.st;
        let location = self.get_token_location(out.loc_len);
        match out.err {
            None => Ok(Token::new(out.token_type, chars_to_string(&out.text), location)),
            Some(TkErrKind::UnterminatedString) => {
                if self.streaming {
                    Ok(Token::new(out.token_type, chars_to_string(&out.text), location))
                } else {
                    Err(ForthicError::UnterminatedString {
                        forthic: self.input_string.clone(),
                        location: Some(location),
                        cause: None,
                    })
                }
            },
            Some(TkErrKind::InvalidWordName) => Err(ForthicError::InvalidWordName {
                forthic: self.input_string.clone(),
                note: Some(String::from_str("name has a quote or delimiter, or input ended")),
                location: Some(location),
                cause: None,
            }),
        }
    }
}

/// Bounds of the comment scanner: the cursor never retreats past its
/// entry and never leaves the input.
pub proof fn lemma_comment_bounds(s: Seq<char>, st: TkState, acc: Seq<char>)
    requires
        s.len() <= usize::MAX,
        st.pos <= s.len(),
    ensures
        st.pos <= spec_comment(s, st, acc).st.pos <= s.len(),
    decreases s.len() - st.pos,
{
    if st.pos >= s.len() || st.pos == usize::MAX {
    } else {
        if s[st.pos as int] == '\n' {
        } else {
            lemma_comment_bounds(s, adv1(s, st), acc.push(s[st.pos as int]));
        }
    }
}

/// Bounds of the name scanner.
pub proof fn lemma_name_bounds(s: Seq<char>, st: TkState, memo: bool, acc: Seq<char>)
    requires
        s.len() <= usize::MAX,
        st.pos <= s.len(),
    ensures
        st.pos <= spec_gather_name(s, st, memo, acc).st.pos <= s.len(),
    decreases s.len() - st.pos,
{
    if st.pos >= s.len() || st.pos == usize::MAX {
    } else {
        let ch = s[st.pos as int];
        if is_ws_char(ch) || is_quote_char(ch) || is_delimiter_char(ch) {
        } else {
            lemma_name_bounds(s, adv1(s, st), memo, acc.push(ch));
        }
    }
}

/// Bounds and progress of the definition-opener scanner: it always moves
/// the cursor forward.
pub proof fn lemma_start_def_bounds(s: Seq<char>, st: TkState, memo: bool)
    requires
        s.len() <= usize::MAX,
        st.pos <= s.len(),
    ensures
        st.pos <= spec_start_def(s, st, memo).st.pos <= s.len(),
    decreases s.len() - st.pos,
{
    if st.pos >= s.len() || st.pos == usize::MAX {
    } else {
        let ch = s[st.pos as int];
        let a = adv1(s, st);
        if is_ws_char(ch) {
            lemma_start_def_bounds(s, a, memo);
        } else if is_quote_char(ch) {
        } else {
            lemma_name_bounds(s, note_start(back1(s, a)), memo, Seq::empty());
        }
    }
}

/// Bounds of the module-name scanner.
pub proof fn lemma_module_bounds(s: Seq<char>, st: TkState, acc: Seq<char>)
    requires
        s.len() <= usize::MAX,
        st.pos <= s.len(),
    ensures
        st.pos <= spec_gather_module(s, st, acc).st.pos <= s.len(),
    decreases s.len() - st.pos,
{
    if st.pos >= s.len() || st.pos == usize::MAX {
    } else {
        let ch = s[st.pos as int];
        if is_ws_char(ch) || ch == '}' {
        } else {
            lemma_module_bounds(s, adv1(s, st), acc.push(ch));
        }
    }
}

/// Bounds of the triple-quoted string scanner.
pub proof fn lemma_triple_bounds(s: Seq<char>, st: TkState, delim: char, acc: Seq<char>)
    requires
        s.len() <= usize::MAX,
        st.pos <= s.len(),
    ensures
        st.pos <= spec_gather_triple(s, st, delim, acc).st.pos <= s.len(),
    decreases s.len() - st.pos,
{
    if st.pos >= s.len() || st.pos == usize::MAX {
    } else {
        let ch = s[st.pos as int];
        if ch == delim && st.pos + 2 < s.len() && s[st.pos + 1] == delim && s[st.pos + 2]
            == delim {
            if st.pos + 3 < s.len() && s[st.pos + 3] == delim {
                lemma_triple_bounds(s, adv1(s, st), delim, acc.push(delim));
            } else {
                assert(adv_n(s, st, 3) == adv_n(s, adv1(s, st), 2));
                assert(adv_n(s, adv1(s, st), 2) == adv_n(s, adv1(s, adv1(s, st)), 1));
                assert(adv_n(s, adv1(s, adv1(s, st)), 1) == adv_n(
                    s,
                    adv1(s, adv1(s, adv1(s, st))),
                    0,
                ));
            }
        } else {
            lemma_triple_bounds(s, adv1(s, st), delim, acc.push(ch));
        }
    }
}

/// Bounds of the string scanner.
pub proof fn lemma_string_bounds(s: Seq<char>, st: TkState, delim: char, acc: Seq<char>)
    requires
        s.len() <= usize::MAX,
        st.pos <= s.len(),
    ensures
        st.pos <= spec_gather_string(s, st, delim, acc).st.pos <= s.len(),
    decreases s.len() - st.pos,
{
    if st.pos >= s.len() || st.pos == usize::MAX {
    } else {
        let ch = s[st.pos as int];
        if ch == delim {
        } else {
            lemma_string_bounds(s, adv1(s, st), delim, acc.push(ch));
        }
    }
}

/// Bounds of the word scanner, with strict progress from a character that
/// belongs to a word.
pub proof fn lemma_word_bounds(s: Seq<char>, st: TkState, acc: Seq<char>)
    requires
        s.len() <= usize::MAX,
        st.pos <= s.len(),
    ensures
        st.pos <= spec_gather_word(s, st, acc).st.pos <= s.len(),
        (st.pos < s.len() && !is_ws_char(s[st.pos as int]) && !is_delimiter_char(
            s[st.pos as int],
        ) && s[st.pos as int] != '#') ==> spec_gather_word(s, st, acc).st.pos > st.pos,
    decreases s.len() - st.pos, 1int,
{
    if st.pos >= s.len() || st.pos == usize::MAX {
    } else {
        let ch = s[st.pos as int];
        let a = adv1(s, st);
        if is_ws_char(ch) {
        } else if ch == '[' && acc.contains('T') {
            lemma_bracket_bounds(s, a, acc.push(ch));
        } else if is_delimiter_char(ch) || ch == '#' {
        } else {
            lemma_word_bounds(s, a, acc.push(ch));
        }
    }
}

/// Bounds of the bracketed word stretch.
pub proof fn lemma_bracket_bounds(s: Seq<char>, st: TkState, acc: Seq<char>)
    requires
        s.len() <= usize::MAX,
        st.pos <= s.len(),
    ensures
        st.pos <= spec_word_bracket(s, st, acc).st.pos <= s.len(),
    decreases s.len() - st.pos, 0int,
{
    if st.pos >= s.len() || st.pos == usize::MAX {
    } else {
        let ch = s[st.pos as int];
        let a = adv1(s, st);
        if ch == ']' {
            lemma_word_bounds(s, a, acc.push(ch));
        } else {
            lemma_bracket_bounds(s, a, acc.push(ch));
        }
    }
}

/// Bounds of the dot-symbol scanner, with strict progress from a dot.
pub proof fn lemma_dot_bounds(s: Seq<char>, st: TkState, acc: Seq<char>)
    requires
        s.len() <= usize::MAX,
        st.pos <= s.len(),
    ensures
        st.pos <= spec_gather_dot(s, st, acc).st.pos <= s.len(),
        (st.pos < s.len() && !is_ws_char(s[st.pos as int]) && !is_delimiter_char(
            s[st.pos as int],
        ) && s[st.pos as int] != '#') ==> spec_gather_dot(s, st, acc).st.pos > st.pos,
    decreases s.len() - st.pos,
{
    if st.pos >= s.len() || st.pos == usize::MAX {
    } else {
        let ch = s[st.pos as int];
        let a = adv1(s, st);
        if is_ws_char(ch) {
        } else if is_delimiter_char(ch) || ch == '#' {
        } else {
            lemma_dot_bounds(s, a, acc.push(ch));
        }
    }
}

/// The state machine never leaves the input, and any token but the end of
/// the stream moves the cursor strictly forward.
pub proof fn lemma_next_bounds(s: Seq<char>, st: TkState)
    requires
        s.len() <= usize::MAX,
        st.pos <= s.len(),
    ensures
        spec_next(s, st).st.pos <= s.len(),
        spec_next(s, st).token_type != TokenType::Eos ==> spec_next(s, st).st.pos > st.pos,
    decreases s.len() - st.pos,
{
    if st.pos >= s.len() || st.pos == usize::MAX {
    } else {
        let ch = s[st.pos as int];
        let noted = note_start(st);
        let a = adv1(s, noted);
        if is_ws_char(ch) {
            lemma_next_bounds(s, a);
        } else if ch == '#' {
            lemma_comment_bounds(s, note_start(a), Seq::empty());
        } else if ch == ':' {
            lemma_start_def_bounds(s, a, false);
        } else if ch == '@' && a.pos < s.len() && s[a.pos as int] == ':' {
            lemma_start_def_bounds(s, adv1(s, a), true);
        } else if ch == ';' || ch == '[' || ch == ']' || ch == '}' {
        } else if ch == '{' {
            lemma_module_bounds(s, note_start(a), Seq::empty());
        } else if is_quote_char(ch) && st.pos + 2 < s.len() && s[st.pos + 1] == ch && s[st.pos + 2]
            == ch {
            assert(adv_n(s, a, 2) == adv_n(s, adv1(s, a), 1));
            assert(adv_n(s, adv1(s, a), 1) == adv_n(s, adv1(s, adv1(s, a)), 0));
            lemma_triple_bounds(s, note_start(adv_n(s, a, 2)), ch, Seq::empty());
        } else if is_quote_char(ch) {
            lemma_string_bounds(s, note_start(a), ch, Seq::empty());
        } else if ch == '.' {
            lemma_dot_bounds(s, note_start(back1(s, a)), Seq::empty());
        } else {
            lemma_word_bounds(s, note_start(back1(s, a)), Seq::empty());
        }
    }
}

} // verus!
