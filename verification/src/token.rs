//! The token form of a glob pattern and its rendering as a regular
//! expression.

use vstd::prelude::*;
use crate::text::push_char;

verus! {

broadcast use crate::text::lemma_seq_char_is_scalar_value;

/// The character that separates the components of a path. It is the only
/// one: a backslash in a pattern is a character like any other, on every
/// platform.
pub const SEPARATOR: char = '/';

/// One member of a bracket class: a single character, or an inclusive range
/// given by its two ends. The ends of a range are not checked for order.
#[derive(Clone, Copy, Debug, PartialEq, Eq, Hash, Structural)]
pub enum CharSpecifier {
    SingleChar(char),
    CharRange(char, char),
}

/// One token of a parsed pattern.
#[derive(Debug)]
pub enum Token {
    /// A literal character.
    Char(char),
    /// `?`: exactly one character.
    AnyChar,
    /// `*`: any run of characters inside one path component.
    AnySequence,
    /// `**`: any run of characters, path separators included.
    AnyRecursiveSequence,
    /// `[...]`: one character out of the class.
    AnyWithin(Vec<CharSpecifier>),
    /// `[!...]`: one character not in the class.
    AnyExcept(Vec<CharSpecifier>),
}

/// The mathematical value of a [`Token`].
pub enum TokenView {
    Char(char),
    AnyChar,
    AnySequence,
    AnyRecursiveSequence,
    AnyWithin(Seq<CharSpecifier>),
    AnyExcept(Seq<CharSpecifier>),
}

impl View for Token {
    type V = TokenView;

    open spec fn view(&self) -> TokenView {
        match *self {
            Token::Char(c) => TokenView::Char(c),
            Token::AnyChar => TokenView::AnyChar,
            Token::AnySequence => TokenView::AnySequence,
            Token::AnyRecursiveSequence => TokenView::AnyRecursiveSequence,
            Token::AnyWithin(specs) => TokenView::AnyWithin(specs@),
            Token::AnyExcept(specs) => TokenView::AnyExcept(specs@),
        }
    }
}

/// The values of a run of tokens.
pub open spec fn token_views(tokens: Seq<Token>) -> Seq<TokenView> {
    Seq::new(tokens.len(), |i: int| tokens[i]@)
}

impl Token {
    /// Whether the token is the recursive wildcard.
    pub fn is_recursive(&self) -> (b: bool)
        ensures
            b == (self@ is AnyRecursiveSequence),
    {
        match self {
            Token::AnyRecursiveSequence => true,
            _ => false,
        }
    }
}

/// The members of a bracket class whose body is `body[from..]`, added to
/// `acc`. Reading left to right: three characters with `-` in the middle
/// make a range, anything else is a single character.
pub open spec fn class_from(body: Seq<char>, from: int, acc: Seq<CharSpecifier>) -> Seq<
    CharSpecifier,
>
    decreases body.len() - from,
{
    if from < 0 || from >= body.len() {
        acc
    } else if from + 3 <= body.len() && body[from + 1] == '-' {
        class_from(body, from + 3, acc.push(CharSpecifier::CharRange(body[from], body[from + 2])))
    } else {
        class_from(body, from + 1, acc.push(CharSpecifier::SingleChar(body[from])))
    }
}

/// The members of the bracket class with the given body (the text between
/// the brackets, without a leading `!`).
pub open spec fn class_of(body: Seq<char>) -> Seq<CharSpecifier> {
    class_from(body, 0, Seq::empty())
}

/// Parses the body `chars[lo..hi]` of a bracket class.
pub fn parse_character_class(chars: &Vec<char>, lo: usize, hi: usize) -> (cs: Vec<CharSpecifier>)
    requires
        lo <= hi <= chars.len(),
    ensures
        cs@ == class_of(chars@.subrange(lo as int, hi as int)),
{
    let ghost body = chars@.subrange(lo as int, hi as int);
    let mut cs: Vec<CharSpecifier> = Vec::new();
    let mut i: usize = lo;
    while i < hi
        invariant
            lo <= i <= hi <= chars.len(),
            body == chars@.subrange(lo as int, hi as int),
            class_from(body, i - lo, cs@) == class_of(body),
        decreases hi - i,
    {
        if hi - i >= 3 && chars[i + 1] == '-' {
            cs.push(CharSpecifier::CharRange(chars[i], chars[i + 2]));
            i += 3;
        } else {
            cs.push(CharSpecifier::SingleChar(chars[i]));
            i += 1;
        }
    }
    cs
}

/// Whether `c` has a meaning of its own in a regular expression.
pub open spec fn is_regex_special(c: char) -> bool {
    c == '\\' || c == '.' || c == '+' || c == '*' || c == '?' || c == '(' || c == ')' || c == '|'
        || c == '[' || c == ']' || c == '{' || c == '}' || c == '^' || c == '$'
}

/// The regular expression that matches exactly the character `c`.
pub open spec fn escaped_char(c: char) -> Seq<char> {
    if is_regex_special(c) {
        seq!['\\', c]
    } else {
        seq![c]
    }
}

/// A character as it stands inside a bracket class: a backslash is doubled.
pub open spec fn class_char(c: char) -> Seq<char> {
    if c == '\\' {
        seq!['\\', '\\']
    } else {
        seq![c]
    }
}

/// One class member as it stands inside a bracket class.
pub open spec fn specifier_text(spec: CharSpecifier) -> Seq<char> {
    match spec {
        CharSpecifier::SingleChar(c) => class_char(c),
        CharSpecifier::CharRange(a, b) => class_char(a) + seq!['-'] + class_char(b),
    }
}

/// The members of a class, one after the other.
pub open spec fn class_text(specs: Seq<CharSpecifier>) -> Seq<char>
    decreases specs.len(),
{
    if specs.len() == 0 {
        Seq::empty()
    } else {
        class_text(specs.drop_last()) + specifier_text(specs.last())
    }
}

/// The regular expression for one token.
pub open spec fn token_text(token: TokenView) -> Seq<char> {
    match token {
        TokenView::Char(c) => escaped_char(c),
        TokenView::AnyChar => seq!['.'],
        TokenView::AnySequence => seq!['[', '^'] + escaped_char(SEPARATOR) + seq![']', '*'],
        TokenView::AnyRecursiveSequence => seq!['.', '*'],
        TokenView::AnyWithin(specs) => seq!['['] + class_text(specs) + seq![']'],
        TokenView::AnyExcept(specs) => seq!['[', '^'] + class_text(specs) + seq![']'],
    }
}

/// The regular expressions of a run of tokens, one after the other.
pub open spec fn tokens_text(tokens: Seq<TokenView>) -> Seq<char>
    decreases tokens.len(),
{
    if tokens.len() == 0 {
        Seq::empty()
    } else {
        tokens_text(tokens.drop_last()) + token_text(tokens.last())
    }
}

/// What closes every compiled pattern: the end-of-text anchor, then the
/// multi-line and dot-matches-newline flags.
pub open spec fn regex_tail() -> Seq<char> {
    seq!['\\', 'z', '(', '?', 'm', 's', ')']
}

/// The regular expression a run of tokens compiles to.
pub open spec fn regex_text(tokens: Seq<TokenView>) -> Seq<char> {
    tokens_text(tokens) + regex_tail()
}

/// Appends to `out` the regular expression that matches exactly `c`.
pub fn escape_regex_char(out: &mut String, c: char)
    ensures
        final(out)@ == old(out)@ + escaped_char(c),
{
    match c {
        '\\' | '.' | '+' | '*' | '?' | '(' | ')' | '|' | '[' | ']' | '{' | '}' | '^' | '$' => {
            push_char(out, '\\');
        },
        _ => {},
    }
    push_char(out, c);
    assert(final(out)@ == old(out)@ + escaped_char(c));
}

fn emit_class_char(out: &mut String, c: char)
    ensures
        final(out)@ == old(out)@ + class_char(c),
{
    if c == '\\' {
        push_char(out, '\\');
    }
    push_char(out, c);
    assert(final(out)@ == old(out)@ + class_char(c));
}

/// Appends the members of a bracket class to `out`.
pub fn emit_set(out: &mut String, specs: &Vec<CharSpecifier>)
    ensures
        final(out)@ == old(out)@ + class_text(specs@),
{
    let mut i: usize = 0;
    assert(specs@.take(0) == Seq::<CharSpecifier>::empty());
    while i < specs.len()
        invariant
            i <= specs.len(),
            out@ == old(out)@ + class_text(specs@.take(i as int)),
        decreases specs.len() - i,
    {
        let ghost before = out@;
        match specs[i] {
            CharSpecifier::SingleChar(c) => {
                emit_class_char(out, c);
            },
            CharSpecifier::CharRange(a, b) => {
                emit_class_char(out, a);
                push_char(out, '-');
                emit_class_char(out, b);
            },
        }
        assert(out@ == before + specifier_text(specs@[i as int]));
        assert(specs@.take(i + 1).drop_last() == specs@.take(i as int));
        i += 1;
    }
    assert(specs@.take(i as int) == specs@);
}

/// Appends the regular expression for one token to `out`.
pub fn emit_token(out: &mut String, token: &Token)
    ensures
        final(out)@ == old(out)@ + token_text(token@),
{
    match token {
        Token::Char(c) => {
            escape_regex_char(out, *c);
        },
        Token::AnyChar => {
            push_char(out, '.');
        },
        Token::AnySequence => {
            push_char(out, '[');
            push_char(out, '^');
            escape_regex_char(out, SEPARATOR);
            push_char(out, ']');
            push_char(out, '*');
        },
        Token::AnyRecursiveSequence => {
            push_char(out, '.');
            push_char(out, '*');
        },
        Token::AnyWithin(specs) => {
            push_char(out, '[');
            emit_set(out, specs);
            push_char(out, ']');
        },
        Token::AnyExcept(specs) => {
            push_char(out, '[');
            push_char(out, '^');
            emit_set(out, specs);
            push_char(out, ']');
        },
    }
    assert(final(out)@ == old(out)@ + token_text(token@));
}

/// The regular expression that a run of tokens compiles to, as text.
pub fn render(tokens: &Vec<Token>) -> (re: String)
    ensures
        re@ == regex_text(token_views(tokens@)),
{
    let ghost views = token_views(tokens@);
    let mut re = String::new();
    let mut i: usize = 0;
    assert(views.take(0) == Seq::<TokenView>::empty());
    while i < tokens.len()
        invariant
            i <= tokens.len(),
            views == token_views(tokens@),
            re@ == tokens_text(views.take(i as int)),
        decreases tokens.len() - i,
    {
        emit_token(&mut re, &tokens[i]);
        assert(views.take(i + 1).drop_last() == views.take(i as int));
        i += 1;
    }
    assert(views.take(i as int) == views);
    push_char(&mut re, '\\');
    push_char(&mut re, 'z');
    push_char(&mut re, '(');
    push_char(&mut re, '?');
    push_char(&mut re, 'm');
    push_char(&mut re, 's');
    push_char(&mut re, ')');
    assert(re@ == tokens_text(views) + regex_tail());
    re
}

} // verus!
