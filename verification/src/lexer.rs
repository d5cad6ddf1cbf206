//! From program text to tokens.
//!
//! The text is read from left to right. Before each token the whitespace is
//! skipped; then a name or keyword is tried, then a number, then a
//! separator, and the first that is found at the start of what is left
//! becomes the token. The four shapes are regular expressions, matched by
//! the `regex` crate; what is done with a match is decided here.

pub use crate::token::Token;
use crate::number::{integer_of, parse_number};
use crate::text::same_text;
use crate::token::{token_views, TokenView};
use vstd::prelude::*;
use vstd::string::StringSliceAdditionalSpecFns;
use vstd::utf8::{decode_utf8, encode_utf8_decode_utf8, is_char_boundary};

verus! {

/// The error of `regex::Regex::new`.
#[verifier::external_type_specification]
#[verifier::external_body]
pub struct ExRegexError(regex::Error);

/// Names whether `regex::Regex::new` accepts `pattern`.
pub uninterp spec fn compiles(pattern: Seq<char>) -> bool;

/// Names what `regex::Regex::find` returns on `text` for the expression that
/// `regex::Regex::new` makes of `pattern`: the byte offsets at which the
/// leftmost match starts and ends, or `None` where nothing matches.
pub uninterp spec fn first_match(pattern: Seq<char>, text: Seq<char>) -> Option<(int, int)>;

/// Compiles `pattern` with `regex::Regex::new` and searches `text` with
/// `regex::Regex::find`. The contract gives both results their names and
/// claims nothing else of them: the error is that of `new`, and the pair
/// holds `Match::start` and `Match::end` of what `find` returned.
#[verifier::external_body]
fn find(pattern: &str, text: &str) -> (found: Result<Option<(usize, usize)>, regex::Error>)
    ensures
        found is Ok <==> compiles(pattern@),
        found matches Ok(offsets) ==> first_match(pattern@, text@) == match offsets {
            Some((start, end)) => Some((start as int, end as int)),
            None => None,
        },
{
    match regex::Regex::new(pattern) {
        Ok(expression) => match expression.find(text) {
            Some(found) => Ok(Some((found.start(), found.end()))),
            None => Ok(None),
        },
        Err(error) => Err(error),
    }
}

/// Whitespace, one character or more.
pub const WHITESPACE: &'static str = "^\\s+";

/// A letter, then letters and digits.
pub const WORD: &'static str = "^[[:alpha:]]([[:alpha:]]|\\d)*";

/// Digits, one or more.
pub const DIGITS: &'static str = "^\\d+";

/// One of the separators; the longer come first.
pub const SEPARATOR: &'static str = "^(:=|>=|<=|,|;|=|>|<|\\+|-|\\*|/|#|\\.|!|\\?|\\(|\\))";

/// The length in bytes of a match that can be cut off the front of the
/// text `bytes`: it starts at the start, is not empty and ends between two
/// characters. Any other match counts as none.
pub open spec fn prefix_length(found: Option<(int, int)>, bytes: Seq<u8>) -> Option<int> {
    match found {
        Some((start, end)) => if start == 0 && 0 < end <= bytes.len() && is_char_boundary(
            bytes,
            end,
        ) {
            Some(end)
        } else {
            None
        },
        None => None,
    }
}

/// The word is one of the eleven keywords.
pub open spec fn is_keyword_text(word: Seq<char>) -> bool {
    ||| word == "BEGIN"@
    ||| word == "END"@
    ||| word == "PROCEDURE"@
    ||| word == "WHILE"@
    ||| word == "DO"@
    ||| word == "IF"@
    ||| word == "THEN"@
    ||| word == "CALL"@
    ||| word == "ODD"@
    ||| word == "VAR"@
    ||| word == "CONST"@
}

/// The token at the front of the text `bytes`, and its length in bytes,
/// given the lengths of the word, the digits and the separator found there.
/// A word counts before digits, and digits before a separator. A word is a
/// keyword or a name; digits must write a number of 32 bits.
pub open spec fn token_of(
    bytes: Seq<u8>,
    word: Option<int>,
    digits: Option<int>,
    separator: Option<int>,
) -> Result<(TokenView, int), Seq<char>> {
    if word is Some {
        let text = decode_utf8(bytes.subrange(0, word.unwrap()));
        if is_keyword_text(text) {
            Ok((TokenView::Keyword(text), word.unwrap()))
        } else {
            Ok((TokenView::Ident(text), word.unwrap()))
        }
    } else if digits is Some {
        match integer_of(decode_utf8(bytes.subrange(0, digits.unwrap()))) {
            Some(n) => Ok((TokenView::Number(n), digits.unwrap())),
            None => Err("invalid number"@),
        }
    } else if separator is Some {
        Ok(
            (
                TokenView::Separator(decode_utf8(bytes.subrange(0, separator.unwrap()))),
                separator.unwrap(),
            ),
        )
    } else {
        Err("can not progress"@)
    }
}

/// The offsets of a match as integers.
pub open spec fn offsets_of(found: Option<(usize, usize)>) -> Option<(int, int)> {
    match found {
        Some((start, end)) => Some((start as int, end as int)),
        None => None,
    }
}

/// Cuts a match off the front of `text`: the matched piece and the rest,
/// where the match can be cut off.
pub fn cut<'a>(text: &'a str, found: Option<(usize, usize)>) -> (pieces: Option<(&'a str, &'a str)>)
    ensures
        match pieces {
            Some((head, rest)) => {
                &&& prefix_length(offsets_of(found), text.spec_bytes()) == Some(
                    head.spec_bytes().len() as int,
                )
                &&& head.spec_bytes() == text.spec_bytes().subrange(0, head.spec_bytes().len() as int)
                &&& rest.spec_bytes() == text.spec_bytes().subrange(
                    head.spec_bytes().len() as int,
                    text.spec_bytes().len() as int,
                )
            },
            None => prefix_length(offsets_of(found), text.spec_bytes()) is None,
        },
{
    match found {
        Some((start, end)) => {
            if start == 0 && 0 < end && end <= text.as_bytes().len() && text.is_char_boundary(end) {
                let (head, rest) = text.split_at(end);
                Some((head, rest))
            } else {
                None
            }
        },
        None => None,
    }
}

/// Tells whether a word is a keyword.
pub fn is_keyword(word: &str) -> (keyword: bool)
    ensures
        keyword == is_keyword_text(word@),
{
    same_text(word, "BEGIN") || same_text(word, "END") || same_text(word, "PROCEDURE")
        || same_text(word, "WHILE") || same_text(word, "DO") || same_text(word, "IF") || same_text(
        word,
        "THEN",
    ) || same_text(word, "CALL") || same_text(word, "ODD") || same_text(word, "VAR") || same_text(
        word,
        "CONST",
    )
}

/// Decides the token at the front of `text` from what was found there: the
/// match of a word, of digits and of a separator. Returns the token and the
/// text behind it.
pub fn next_token<'a>(
    text: &'a str,
    word: Option<(usize, usize)>,
    digits: Option<(usize, usize)>,
    separator: Option<(usize, usize)>,
) -> (result: Result<(Token<'a>, &'a str), String>)
    ensures
        match result {
            Ok((token, rest)) => {
                &&& token_of(
                    text.spec_bytes(),
                    prefix_length(offsets_of(word), text.spec_bytes()),
                    prefix_length(offsets_of(digits), text.spec_bytes()),
                    prefix_length(offsets_of(separator), text.spec_bytes()),
                ) == Ok::<(TokenView, int), Seq<char>>(
                    (token@, text.spec_bytes().len() - rest.spec_bytes().len()),
                )
                &&& rest.spec_bytes() == text.spec_bytes().subrange(
                    text.spec_bytes().len() - rest.spec_bytes().len(),
                    text.spec_bytes().len() as int,
                )
                &&& rest.spec_bytes().len() < text.spec_bytes().len()
            },
            Err(message) => token_of(
                text.spec_bytes(),
                prefix_length(offsets_of(word), text.spec_bytes()),
                prefix_length(offsets_of(digits), text.spec_bytes()),
                prefix_length(offsets_of(separator), text.spec_bytes()),
            ) == Err::<(TokenView, int), Seq<char>>(message@),
        },
{
    if let Some((head, rest)) = cut(text, word) {
        proof {
            encode_utf8_decode_utf8(head@);
        }
        if is_keyword(head) {
            return Ok((Token::Keyword(head), rest));
        } else {
            return Ok((Token::Ident(head), rest));
        }
    }
    if let Some((head, rest)) = cut(text, digits) {
        proof {
            encode_utf8_decode_utf8(head@);
        }
        return match parse_number(head) {
            Some(n) => Ok((Token::Number(n), rest)),
            None => Err("invalid number".to_owned()),
        };
    }
    if let Some((head, rest)) = cut(text, separator) {
        proof {
            encode_utf8_decode_utf8(head@);
        }
        return Ok((Token::Separator(head), rest));
    }
    Err("can not progress".to_owned())
}

/// What a search for `pattern` finds at the front of the text `bytes`: the
/// length of the match that can be cut off, if there is one. A pattern that
/// does not compile is an error.
pub open spec fn scan(pattern: Seq<char>, bytes: Seq<u8>) -> Result<Option<int>, Seq<char>> {
    if compiles(pattern) {
        Ok(prefix_length(first_match(pattern, decode_utf8(bytes)), bytes))
    } else {
        Err("invalid pattern"@)
    }
}

/// The token at the front of the text `bytes` and its length: a word is
/// searched first, digits only where there is no word, and a separator only
/// where there are no digits either.
pub open spec fn token_in(bytes: Seq<u8>) -> Result<(TokenView, int), Seq<char>> {
    match scan(WORD@, bytes) {
        Err(e) => Err(e),
        Ok(Some(word)) => token_of(bytes, Some(word), None, None),
        Ok(None) => match scan(DIGITS@, bytes) {
            Err(e) => Err(e),
            Ok(Some(digits)) => token_of(bytes, None, Some(digits), None),
            Ok(None) => match scan(SEPARATOR@, bytes) {
                Err(e) => Err(e),
                Ok(separator) => token_of(bytes, None, None, separator),
            },
        },
    }
}

/// The text `bytes` without the whitespace at its front.
pub open spec fn after_whitespace(bytes: Seq<u8>) -> Result<Seq<u8>, Seq<char>> {
    match scan(WHITESPACE@, bytes) {
        Err(e) => Err(e),
        Ok(Some(n)) => Ok(bytes.subrange(n, bytes.len() as int)),
        Ok(None) => Ok(bytes),
    }
}

/// The tokens of the text `bytes`, or why it has none.
///
/// As long as text is left, whitespace is skipped and one token read. So
/// text that ends in whitespace is an error: behind the whitespace no token
/// is found.
pub open spec fn lexed(bytes: Seq<u8>) -> Result<Seq<TokenView>, Seq<char>>
    decreases bytes.len(),
{
    if bytes.len() == 0 {
        Ok(seq![])
    } else {
        match after_whitespace(bytes) {
            Err(e) => Err(e),
            Ok(rest) => match token_in(rest) {
                Err(e) => Err(e),
                Ok((token, n)) => match lexed(rest.subrange(n, rest.len() as int)) {
                    Ok(tokens) => Ok(seq![token] + tokens),
                    Err(e) => Err(e),
                },
            },
        }
    }
}

/// Searches `text` for `pattern`.
fn search(pattern: &str, text: &str) -> (result: Result<Option<(usize, usize)>, String>)
    ensures
        match result {
            Ok(found) => scan(pattern@, text.spec_bytes()) == Ok::<Option<int>, Seq<char>>(
                prefix_length(offsets_of(found), text.spec_bytes()),
            ),
            Err(message) => scan(pattern@, text.spec_bytes()) == Err::<Option<int>, Seq<char>>(
                message@,
            ),
        },
{
    proof {
        encode_utf8_decode_utf8(text@);
    }
    match find(pattern, text) {
        Ok(found) => Ok(found),
        Err(_) => Err("invalid pattern".to_owned()),
    }
}

/// Reads the token at the front of `text`; returns it with the text behind
/// it.
fn token<'a>(text: &'a str) -> (result: Result<(Token<'a>, &'a str), String>)
    ensures
        match result {
            Ok((token, rest)) => {
                &&& token_in(text.spec_bytes()) == Ok::<(TokenView, int), Seq<char>>(
                    (token@, text.spec_bytes().len() - rest.spec_bytes().len()),
                )
                &&& rest.spec_bytes() == text.spec_bytes().subrange(
                    text.spec_bytes().len() - rest.spec_bytes().len(),
                    text.spec_bytes().len() as int,
                )
                &&& rest.spec_bytes().len() < text.spec_bytes().len()
            },
            Err(message) => token_in(text.spec_bytes()) == Err::<(TokenView, int), Seq<char>>(
                message@,
            ),
        },
{
    let word = match search(WORD, text) {
        Ok(word) => word,
        Err(message) => {
            return Err(message);
        },
    };
    if cut(text, word).is_some() {
        return next_token(text, word, None, None);
    }
    let digits = match search(DIGITS, text) {
        Ok(digits) => digits,
        Err(message) => {
            return Err(message);
        },
    };
    if cut(text, digits).is_some() {
        return next_token(text, None, digits, None);
    }
    let separator = match search(SEPARATOR, text) {
        Ok(separator) => separator,
        Err(message) => {
            return Err(message);
        },
    };
    next_token(text, None, None, separator)
}

/// Splits a program text into its tokens.
///
/// The result is `Err` with the message `can not progress` where neither a
/// word nor a number nor a separator starts what is left of the text, with
/// `invalid number` where digits write no number of 32 bits, and with
/// `invalid pattern` where the `regex` crate refuses one of the patterns.
pub fn r_lexer<'a>(input: &'a str) -> (result: Result<Vec<Token<'a>>, String>)
    ensures
        match result {
            Ok(tokens) => lexed(input.spec_bytes()) == Ok::<Seq<TokenView>, Seq<char>>(
                token_views(tokens@),
            ),
            Err(message) => lexed(input.spec_bytes()) == Err::<Seq<TokenView>, Seq<char>>(
                message@,
            ),
        },
{
    let mut tokens: Vec<Token<'a>> = Vec::new();
    let mut text: &'a str = input;
    let ghost whole = lexed(input.spec_bytes());
    assert(token_views(tokens@) =~= Seq::<TokenView>::empty());
    proof {
        match whole {
            Ok(all) => {
                assert(Seq::<TokenView>::empty() + all =~= all);
            },
            Err(_) => {},
        }
    }
    while text.as_bytes().len() > 0
        invariant
            whole == lexed(input.spec_bytes()),
            whole == match lexed(text.spec_bytes()) {
                Ok(rest) => Ok::<Seq<TokenView>, Seq<char>>(token_views(tokens@) + rest),
                Err(e) => Err(e),
            },
        decreases text.spec_bytes().len(),
    {
        let space = match search(WHITESPACE, text) {
            Ok(space) => space,
            Err(message) => {
                return Err(message);
            },
        };
        let rest = match cut(text, space) {
            Some((_, rest)) => rest,
            None => text,
        };
        let (next, behind) = match token(rest) {
            Ok(found) => found,
            Err(message) => {
                return Err(message);
            },
        };
        proof {
            let before = token_views(tokens@);
            assert(token_views(tokens@.push(next)) =~= before.push(next@));
            match lexed(behind.spec_bytes()) {
                Ok(more) => {
                    assert(before.push(next@) + more =~= before + (seq![next@] + more));
                },
                Err(_) => {},
            }
        }
        tokens.push(next);
        text = behind;
    }
    assert(token_views(tokens@) + Seq::<TokenView>::empty() =~= token_views(tokens@));
    Ok(tokens)
}

} // verus!
