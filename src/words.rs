use vstd::prelude::*;

use crate::document::strings_model;

verus! {

/// The tokenizer's error for an unmatched quote, carried as it is.
#[verifier::external_type_specification]
#[verifier::external_body]
pub struct ExParseError(shell_words::ParseError);

/// The words that shell quoting rules find in `s`, or `None` where a quote
/// is left open.
pub uninterp spec fn split_of(s: Seq<char>) -> Option<Seq<Seq<char>>>;

/// A character that keeps a word from being written bare.
pub open spec fn is_shell_special(c: char) -> bool {
    ||| c == '\n' || c == '\'' || c == '|' || c == '&' || c == ';' || c == '<' || c == '>'
    ||| c == '(' || c == ')' || c == '$' || c == '`' || c == '\\' || c == '"' || c == ' '
    ||| c == '\t' || c == '*' || c == '?' || c == '[' || c == '#' || c == '~' || c == '='
    ||| c == '%'
}

/// `s` with each single quote written as `'\''`.
pub open spec fn escape_quotes(s: Seq<char>) -> Seq<char>
    decreases s.len(),
{
    if s.len() == 0 {
        Seq::empty()
    } else {
        escape_quotes(s.drop_last()) + if s.last() == '\'' {
            seq!['\'', '\\', '\'', '\'']
        } else {
            seq![s.last()]
        }
    }
}

/// `s` written as one shell word: as it is where it is not empty and holds
/// no special character, else between single quotes.
pub open spec fn quote_of(s: Seq<char>) -> Seq<char> {
    if s.len() > 0 && forall|k: int| 0 <= k < s.len() ==> !is_shell_special(#[trigger] s[k]) {
        s
    } else {
        seq!['\''] + escape_quotes(s) + seq!['\'']
    }
}

/// Relies on `shell_words::split`: splits `s` into words by shell quoting
/// rules and fails only on an unmatched quote; the outcome depends on the
/// text alone.
#[verifier::external_body]
pub(crate) fn split_words(s: &str) -> (r: Result<Vec<String>, shell_words::ParseError>)
    ensures
        match r {
            Ok(w) => split_of(s@) == Some(strings_model(w@)),
            Err(_) => split_of(s@) is None,
        },
{
    shell_words::split(s)
}

/// Relies on `shell_words::quote`: a word that is not empty and holds none of
/// the special characters comes back unchanged; any other is put between
/// single quotes, each single quote in it written as `'\''`.
#[verifier::external_body]
pub(crate) fn quote_word(s: &str) -> (r: String)
    ensures
        r@ == quote_of(s@),
{
    shell_words::quote(s).into_owned()
}

} // verus!
