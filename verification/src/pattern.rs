//! Glob patterns: the tokenizer, and the compiled pattern that matches text.

use vstd::prelude::*;
use crate::engine::{
    regex_accepts, regex_as_str, regex_error_message, regex_error_position, regex_find,
    regex_found, regex_new, regex_refusal, regex_search, regex_source,
};
use crate::path::{path_text, Path};
use crate::text::{chars_of, push_char, push_chars};
use crate::token::{
    class_of, parse_character_class, regex_text, token_views, render, Token, TokenView,
    SEPARATOR,
};

verus! {

broadcast use crate::text::lemma_seq_char_is_scalar_value;

/// Why a pattern was refused, with the offset of the offending character.
#[derive(Debug)]
pub struct Error {
    /// Offset, in characters, into the pattern.
    pub pos: usize,
    /// What is wrong there.
    pub msg: String,
}

/// The ways in which the text of a pattern can be malformed.
#[derive(Clone, Copy, Debug, PartialEq, Eq, Structural)]
pub enum Fault {
    /// Three or more `*` in a row.
    StarRun,
    /// A `**` that is not a whole path component.
    RecursivePlacement,
    /// A `[` without a class and a closing `]` after it.
    InvalidRange,
}

/// The message that goes with each fault.
pub open spec fn fault_message(fault: Fault) -> Seq<char> {
    match fault {
        Fault::StarRun => "wildcards are either regular `*` or recursive `**`"@,
        Fault::RecursivePlacement =>
            "recursive wildcards `**` must form a single path component, e.g. a/**/b"@,
        Fault::InvalidRange => "invalid range pattern"@,
    }
}

/// `tokens` followed by a recursive wildcard, unless it already ends in one.
pub open spec fn with_recursive(tokens: Seq<TokenView>) -> Seq<TokenView> {
    if tokens.len() > 0 && tokens.last() is AnyRecursiveSequence {
        tokens
    } else {
        tokens.push(TokenView::AnyRecursiveSequence)
    }
}

/// The position of the first `]` at or after `from`, if there is one.
pub open spec fn first_close(chars: Seq<char>, from: int) -> Option<int>
    decreases chars.len() - from,
{
    if from < 0 || from >= chars.len() {
        None
    } else if chars[from] == ']' {
        Some(from)
    } else {
        first_close(chars, from + 1)
    }
}

/// `first_close` finds a `]`, the leftmost one, and finds one whenever there
/// is one.
pub proof fn lemma_first_close(chars: Seq<char>, from: int)
    requires
        0 <= from,
    ensures
        match first_close(chars, from) {
            Some(k) => {
                &&& from <= k < chars.len()
                &&& chars[k] == ']'
                &&& forall|j: int| from <= j < k ==> chars[j] != ']'
            },
            None => forall|j: int| from <= j < chars.len() ==> chars[j] != ']',
        },
    decreases chars.len() - from,
{
    if from < chars.len() && chars[from] != ']' {
        lemma_first_close(chars, from + 1);
    }
}

/// The tokens of `chars[i..]`, added to `acc`; or the first fault met, with
/// its position.
///
/// - `?` is any one character, a lone `*` any run inside a component.
/// - `**` must be a whole component: at the start or after a separator, and
///   at the end or before a separator, which it takes with it. Several in a
///   row leave one token. The fault is at the neighbour that is out of place.
/// - Three `*` in a row are a fault at the third.
/// - `[` opens a class, `[!` a negated one. The class runs to the first `]`
///   that is not its first member; without one the fault is at the `[`.
/// - Every other character stands for itself.
pub open spec fn parse_from(chars: Seq<char>, i: int, acc: Seq<TokenView>) -> Result<
    Seq<TokenView>,
    (int, Fault),
>
    decreases chars.len() - i,
    via parse_from_decreases
{
    if i < 0 || i >= chars.len() {
        Ok(acc)
    } else if chars[i] == '?' {
        parse_from(chars, i + 1, acc.push(TokenView::AnyChar))
    } else if chars[i] == '*' {
        if i + 2 < chars.len() && chars[i + 1] == '*' && chars[i + 2] == '*' {
            Err((i + 2, Fault::StarRun))
        } else if i + 1 < chars.len() && chars[i + 1] == '*' {
            if i == 0 || chars[i - 1] == SEPARATOR {
                if i + 2 == chars.len() {
                    parse_from(chars, i + 2, with_recursive(acc))
                } else if chars[i + 2] == SEPARATOR {
                    parse_from(chars, i + 3, with_recursive(acc))
                } else {
                    Err((i + 2, Fault::RecursivePlacement))
                }
            } else {
                Err((i - 1, Fault::RecursivePlacement))
            }
        } else {
            parse_from(chars, i + 1, acc.push(TokenView::AnySequence))
        }
    } else if chars[i] == '[' {
        let negated = i + 1 < chars.len() && chars[i + 1] == '!';
        let body = if negated {
            i + 2
        } else {
            i + 1
        };
        match first_close(chars, body + 1) {
            None => Err((i, Fault::InvalidRange)),
            Some(k) => {
                let class = class_of(chars.subrange(body, k));
                parse_from(
                    chars,
                    k + 1,
                    acc.push(
                        if negated {
                            TokenView::AnyExcept(class)
                        } else {
                            TokenView::AnyWithin(class)
                        },
                    ),
                )
            },
        }
    } else {
        parse_from(chars, i + 1, acc.push(TokenView::Char(chars[i])))
    }
}

#[via_fn]
proof fn parse_from_decreases(chars: Seq<char>, i: int, acc: Seq<TokenView>) {
    if 0 <= i < chars.len() && chars[i] == '[' {
        lemma_first_close(chars, i + 2);
        lemma_first_close(chars, i + 3);
    }
}

/// The tokens of a pattern, or its first fault.
pub open spec fn parse_spec(pattern: Seq<char>) -> Result<Seq<TokenView>, (int, Fault)> {
    parse_from(pattern, 0, Seq::empty())
}

/// The regular expression that a well-formed pattern compiles to.
pub open spec fn pattern_regex(pattern: Seq<char>) -> Seq<char>
    recommends
        parse_spec(pattern) is Ok,
{
    regex_text(parse_spec(pattern)->Ok_0)
}

/// A pattern is valid when it parses and the engine accepts its regular
/// expression.
pub open spec fn is_valid_pattern(pattern: Seq<char>) -> bool {
    parse_spec(pattern) is Ok && regex_accepts(pattern_regex(pattern))
}

/// Where the engine's error for an expression it refuses points: at the
/// offset the error carries, or at the start where it carries none.
pub open spec fn refusal_position(expression: Seq<char>) -> usize {
    match regex_refusal(expression) {
        Some((Some(position), _)) => position,
        _ => 0,
    }
}

/// What the engine's error for an expression it refuses says.
pub open spec fn refusal_message(expression: Seq<char>) -> Seq<char> {
    match regex_refusal(expression) {
        Some((_, message)) => message,
        None => Seq::empty(),
    }
}

/// The error `e` is the one for compiling `text`: `text` is no valid
/// pattern; where it is malformed, `e` names the fault and its place; where
/// the engine refuses its regular expression, `e` carries the position and
/// the message of the engine's error.
pub open spec fn reports(e: Error, text: Seq<char>) -> bool {
    &&& !is_valid_pattern(text)
    &&& match parse_spec(text) {
        Err((pos, fault)) => e.pos == pos && e.msg@ == fault_message(fault),
        Ok(tokens) => e.pos == refusal_position(regex_text(tokens)) && e.msg@
            == refusal_message(regex_text(tokens)),
    }
}

/// Whether a match that the engine has found is the whole of `text`: from
/// its first byte to its last.
pub open spec fn is_whole(found: Option<(usize, usize)>, text: Seq<char>) -> bool {
    found == Some((0usize, vstd::utf8::encode_utf8(text).len() as usize))
}

/// Whether `pattern` matches `text`: whether the leftmost match of its
/// regular expression is the whole of the text.
pub open spec fn glob_matches(pattern: Seq<char>, text: Seq<char>) -> bool {
    is_whole(regex_search(pattern_regex(pattern), text), text)
}

/// How one character is written so that it stands for itself in a pattern.
pub open spec fn escaped_glob_char(c: char) -> Seq<char> {
    if c == '?' || c == '*' || c == '[' || c == ']' {
        seq!['[', c, ']']
    } else {
        seq![c]
    }
}

/// The pattern that matches `text` literally.
pub open spec fn escape_spec(text: Seq<char>) -> Seq<char>
    decreases text.len(),
{
    if text.len() == 0 {
        Seq::empty()
    } else {
        escape_spec(text.drop_last()) + escaped_glob_char(text.last())
    }
}

/// The digit `d` as a character.
pub open spec fn digit_char(d: int) -> char {
    if d == 0 {
        '0'
    } else if d == 1 {
        '1'
    } else if d == 2 {
        '2'
    } else if d == 3 {
        '3'
    } else if d == 4 {
        '4'
    } else if d == 5 {
        '5'
    } else if d == 6 {
        '6'
    } else if d == 7 {
        '7'
    } else if d == 8 {
        '8'
    } else {
        '9'
    }
}

/// A number written in decimal, without leading zeros.
pub open spec fn decimal(n: nat) -> Seq<char>
    decreases n,
{
    if n < 10 {
        seq![digit_char(n as int)]
    } else {
        decimal(n / 10).push(digit_char((n % 10) as int))
    }
}

/// An error as one line of text.
pub open spec fn error_text(pos: nat, msg: Seq<char>) -> Seq<char> {
    "Pattern syntax error near position "@ + decimal(pos) + ": "@ + msg
}

fn push_digit(out: &mut String, d: usize)
    requires
        d < 10,
    ensures
        final(out)@ == old(out)@.push(digit_char(d as int)),
{
    let c = if d == 0 {
        '0'
    } else if d == 1 {
        '1'
    } else if d == 2 {
        '2'
    } else if d == 3 {
        '3'
    } else if d == 4 {
        '4'
    } else if d == 5 {
        '5'
    } else if d == 6 {
        '6'
    } else if d == 7 {
        '7'
    } else if d == 8 {
        '8'
    } else {
        '9'
    };
    push_char(out, c);
}

fn push_decimal(out: &mut String, n: usize)
    ensures
        final(out)@ == old(out)@ + decimal(n as nat),
    decreases n,
{
    if n < 10 {
        push_digit(out, n);
        assert(final(out)@ == old(out)@ + decimal(n as nat));
    } else {
        push_decimal(out, n / 10);
        push_digit(out, n % 10);
        assert(final(out)@ == old(out)@ + decimal(n as nat));
    }
}

impl Error {
    /// The error as one line of text: where, then what.
    pub fn to_string(&self) -> (text: String)
        ensures
            text@ == error_text(self.pos as nat, self.msg@),
    {
        let mut text = String::new();
        let head = chars_of("Pattern syntax error near position ");
        push_chars(&mut text, &head, 0);
        assert(head@.skip(0) == head@);
        push_decimal(&mut text, self.pos);
        let colon = chars_of(": ");
        push_chars(&mut text, &colon, 0);
        assert(colon@.skip(0) == colon@);
        let msg = chars_of(self.msg.as_str());
        push_chars(&mut text, &msg, 0);
        assert(msg@.skip(0) == msg@);
        text
    }

    /// The error for a fault found at `pos`.
    pub fn syntax(pos: usize, fault: Fault) -> (e: Error)
        ensures
            e.pos == pos,
            e.msg@ == fault_message(fault),
    {
        let msg = match fault {
            Fault::StarRun => "wildcards are either regular `*` or recursive `**`".to_owned(),
            Fault::RecursivePlacement =>
                "recursive wildcards `**` must form a single path component, e.g. a/**/b".to_owned(),
            Fault::InvalidRange => "invalid range pattern".to_owned(),
        };
        Error { pos, msg }
    }
}

/// A compiled glob pattern. It matches a text when its regular expression
/// matches the text from its first character to its last.
#[derive(Debug)]
pub struct Pattern {
    re: regex::Regex,
    original: String,
}

impl View for Pattern {
    type V = Seq<char>;

    /// The text the pattern was made from.
    closed spec fn view(&self) -> Seq<char> {
        self.original@
    }
}

fn find_close(chars: &Vec<char>, from: usize) -> (r: Option<usize>)
    ensures
        match r {
            Some(k) => first_close(chars@, from as int) == Some(k as int) && from <= k
                < chars.len(),
            None => first_close(chars@, from as int) is None,
        },
{
    let mut k: usize = from;
    while k < chars.len()
        invariant
            from <= k,
            first_close(chars@, from as int) == first_close(chars@, k as int),
        decreases chars.len() - k,
    {
        if chars[k] == ']' {
            return Some(k);
        }
        k += 1;
    }
    None
}

fn push_recursive(tokens: &mut Vec<Token>)
    ensures
        token_views(final(tokens)@) == with_recursive(token_views(old(tokens)@)),
{
    let n = tokens.len();
    if !(n > 0 && tokens[n - 1].is_recursive()) {
        tokens.push(Token::AnyRecursiveSequence);
        assert(token_views(tokens@) == token_views(old(tokens)@).push(
            TokenView::AnyRecursiveSequence,
        ));
    }
}

fn push_token(tokens: &mut Vec<Token>, token: Token)
    ensures
        token_views(final(tokens)@) == token_views(old(tokens)@).push(token@),
{
    tokens.push(token);
    assert(token_views(tokens@) == token_views(old(tokens)@).push(token@));
}

impl Pattern {
    #[verifier::type_invariant]
    spec fn well_formed(&self) -> bool {
        &&& parse_spec(self.original@) is Ok
        &&& regex_source(self.re) == pattern_regex(self.original@)
        &&& forall|subject: Seq<char>| #[trigger]
            regex_found(self.re, subject) == regex_search(
                pattern_regex(self.original@),
                subject,
            )
    }

    /// Splits a pattern into tokens.
    pub fn parse(pattern: &str) -> (r: Result<Vec<Token>, Error>)
        ensures
            match r {
                Ok(tokens) => parse_spec(pattern@) == Ok::<Seq<TokenView>, (int, Fault)>(
                    token_views(tokens@),
                ),
                Err(e) => parse_spec(pattern@) matches Err((pos, fault)) && e.pos == pos && e.msg@
                    == fault_message(fault),
            },
    {
        let chars = chars_of(pattern);
        let n = chars.len();
        let mut tokens: Vec<Token> = Vec::new();
        let mut i: usize = 0;
        assert(token_views(tokens@) == Seq::<TokenView>::empty());
        while i < n
            invariant
                i <= n == chars.len(),
                chars@ == pattern@,
                parse_from(chars@, i as int, token_views(tokens@)) == parse_spec(pattern@),
            decreases n - i,
        {
            let c = chars[i];
            if c == '?' {
                push_token(&mut tokens, Token::AnyChar);
                i += 1;
            } else if c == '*' {
                if n - i > 2 && chars[i + 1] == '*' && chars[i + 2] == '*' {
                    return Err(Error::syntax(i + 2, Fault::StarRun));
                } else if n - i > 1 && chars[i + 1] == '*' {
                    if i == 0 || chars[i - 1] == SEPARATOR {
                        if n - i == 2 {
                            push_recursive(&mut tokens);
                            i += 2;
                                    } else if chars[i + 2] == SEPARATOR {
                            push_recursive(&mut tokens);
                            i += 3;
                                    } else {
                            return Err(Error::syntax(i + 2, Fault::RecursivePlacement));
                        }
                    } else {
                        return Err(Error::syntax(i - 1, Fault::RecursivePlacement));
                    }
                } else {
                    push_token(&mut tokens, Token::AnySequence);
                    i += 1;
                    }
            } else if c == '[' {
                let negated = n - i > 1 && chars[i + 1] == '!';
                let body = if negated {
                    i + 2
                } else {
                    i + 1
                };
                if body >= n {
                    return Err(Error::syntax(i, Fault::InvalidRange));
                }
                match find_close(&chars, body + 1) {
                    None => {
                        return Err(Error::syntax(i, Fault::InvalidRange));
                    },
                    Some(k) => {
                        let class = parse_character_class(&chars, body, k);
                        if negated {
                            push_token(&mut tokens, Token::AnyExcept(class));
                        } else {
                            push_token(&mut tokens, Token::AnyWithin(class));
                        }
                        i = k + 1;
                            },
                }
            } else {
                push_token(&mut tokens, Token::Char(c));
                i += 1;
            }
        }
        Ok(tokens)
    }

    /// Compiles tokens into a regex. Fails exactly when the engine refuses
    /// their regular expression, with the position and the message of the
    /// engine's error; an error of the engine without a position gives
    /// position 0.
    fn compile(tokens: &Vec<Token>) -> (r: Result<regex::Regex, Error>)
        ensures
            match r {
                Ok(re) => {
                    &&& regex_accepts(regex_text(token_views(tokens@)))
                    &&& regex_source(re) == regex_text(token_views(tokens@))
                    &&& forall|subject: Seq<char>| #[trigger]
                        regex_found(re, subject) == regex_search(
                            regex_text(token_views(tokens@)),
                            subject,
                        )
                },
                Err(e) => {
                    &&& !regex_accepts(regex_text(token_views(tokens@)))
                    &&& e.pos == refusal_position(regex_text(token_views(tokens@)))
                    &&& e.msg@ == refusal_message(regex_text(token_views(tokens@)))
                },
            },
    {
        let text = render(tokens);
        match regex_new(text.as_str()) {
            Ok(re) => Ok(re),
            Err(e) => {
                let pos = match regex_error_position(&e) {
                    Some(pos) => pos,
                    None => 0,
                };
                Err(Error { pos, msg: regex_error_message(&e) })
            },
        }
    }

    /// Compiles a pattern.
    ///
    /// Fails on a malformed pattern with the fault and its position, and on
    /// a pattern whose regular expression the engine refuses with the
    /// engine's own position and message.
    pub fn new(pattern: &str) -> (r: Result<Pattern, Error>)
        ensures
            r is Ok <==> is_valid_pattern(pattern@),
            r matches Ok(p) ==> p@ == pattern@,
            r matches Err(e) ==> reports(e, pattern@),
    {
        match Pattern::parse(pattern) {
            Err(e) => Err(e),
            Ok(tokens) => match Pattern::compile(&tokens) {
                Err(e) => Err(e),
                Ok(re) => Ok(Pattern { re, original: pattern.to_owned() }),
            },
        }
    }

    /// The text the pattern was made from.
    pub fn as_str(&self) -> (s: &str)
        ensures
            s@ == self@,
    {
        self.original.as_str()
    }

    /// The regular expression the pattern compiles to.
    pub fn to_string(&self) -> (s: String)
        ensures
            s@ == pattern_regex(self@),
    {
        proof {
            use_type_invariant(self);
        }
        regex_as_str(&self.re).to_owned()
    }

    /// Whether the pattern matches `text`, all of it: the engine is asked
    /// where its regular expression matches first, and only a match that
    /// runs from the start of the text to its end counts.
    pub fn matches(&self, text: &str) -> (b: bool)
        ensures
            b == glob_matches(self@, text@),
    {
        proof {
            use_type_invariant(self);
        }
        match regex_find(&self.re, text) {
            Some((start, end)) => start == 0 && end == text.len(),
            None => false,
        }
    }

    /// Whether the pattern matches a path, written out as text.
    pub fn matches_path(&self, path: &Path) -> (b: bool)
        ensures
            b == glob_matches(self@, path_text(path@)),
    {
        let text = path.to_string();
        self.matches(text.as_str())
    }

    /// Rewrites `text` so that, read as a pattern, it stands for itself:
    /// each of `?`, `*`, `[` and `]` goes into a bracket class of its own.
    pub fn escape(text: &str) -> (escaped: String)
        ensures
            escaped@ == escape_spec(text@),
    {
        let chars = chars_of(text);
        let mut escaped = String::new();
        let mut i: usize = 0;
        assert(chars@.take(0) == Seq::<char>::empty());
        while i < chars.len()
            invariant
                i <= chars.len(),
                chars@ == text@,
                escaped@ == escape_spec(chars@.take(i as int)),
            decreases chars.len() - i,
        {
            let c = chars[i];
            let ghost before = escaped@;
            match c {
                '?' | '*' | '[' | ']' => {
                    push_char(&mut escaped, '[');
                    push_char(&mut escaped, c);
                    push_char(&mut escaped, ']');
                },
                c => {
                    push_char(&mut escaped, c);
                },
            }
            assert(escaped@ == before + escaped_glob_char(c));
            assert(chars@.take(i + 1).drop_last() == chars@.take(i as int));
            i += 1;
        }
        assert(chars@.take(i as int) == chars@);
        escaped
    }
}

impl PartialEq for Pattern {
    /// Two patterns are equal when they compile to the same regular
    /// expression.
    fn eq(&self, other: &Pattern) -> (r: bool) {
        self.to_string() == other.to_string()
    }
}

impl vstd::std_specs::cmp::PartialEqSpecImpl for Pattern {
    open spec fn obeys_eq_spec() -> bool {
        true
    }

    open spec fn eq_spec(&self, other: &Pattern) -> bool {
        pattern_regex(self@) == pattern_regex(other@)
    }
}

} // verus!
