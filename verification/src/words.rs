//! Command lines: filling in a template and splitting the result into words.

use vstd::prelude::*;

verus! {

/// The error of `shellwords::split`: a quote that is opened and never closed.
#[verifier::external_type_specification]
#[verifier::external_body]
pub struct ExMismatchedQuotes(shellwords::MismatchedQuotes);

/// The text that `string_template` makes of a template, given the names of
/// the placeholders and the values to put in their place.
pub uninterp spec fn filled_in(template: Seq<char>, names: Seq<Seq<char>>, values: Seq<Seq<char>>) -> Seq<char>;

/// The words that `shellwords::split` finds in a line, or `None` where the
/// line has a quote that is never closed.
pub uninterp spec fn shell_words(line: Seq<char>) -> Option<Seq<Seq<char>>>;

/// Fills in a template: `{{name}}` gives way to the value that stands at the
/// place of `name`.
///
/// This calls `string_template::Template::new` and `render` with a map made
/// of the names and the values, pair by pair. Believed of it, not proved:
/// that the text depends on the template and on these pairs alone. What the
/// text is, is not stated here.
#[verifier::external_body]
pub(crate) fn fill_in(template: &str, names: &Vec<String>, values: &Vec<String>) -> (text: String)
    ensures
        text@ == filled_in(template@, names.deep_view(), values.deep_view()),
{
    let pairs: std::collections::HashMap<&str, &str> = names.iter().zip(values.iter()).map(
        |pair| (pair.0.as_str(), pair.1.as_str()),
    ).collect();
    string_template::Template::new(template).render(&pairs)
}

/// Splits a line into words as a shell would.
///
/// This calls `shellwords::split`. Believed of it, not proved: that the
/// outcome depends on the line alone. Which words come out is not stated here.
#[verifier::external_body]
pub(crate) fn split_words(line: &str) -> (split: Result<Vec<String>, shellwords::MismatchedQuotes>)
    ensures
        match split {
            Ok(words) => shell_words(line@) == Some(words.deep_view()),
            Err(_) => shell_words(line@) is None,
        },
{
    shellwords::split(line)
}

/// The text that reports an unclosed quote.
pub open spec fn quotes_text() -> Seq<char> {
    "Mismatched quotes"@
}

/// Renders the error of a split as the text shown to the user.
///
/// This calls the error's `to_string`, which goes through the `Display` of
/// `shellwords::MismatchedQuotes`. Believed of it, not proved: the text is
/// always `Mismatched quotes`.
#[verifier::external_body]
pub(crate) fn quotes_message(error: &shellwords::MismatchedQuotes) -> (text: String)
    ensures
        text@ == quotes_text(),
{
    error.to_string()
}

/// Adds a character at the end of a text.
///
/// This calls `String::push`. Believed of it, not proved: the text
/// afterwards is the text before with the character behind it.
#[verifier::external_body]
pub(crate) fn push_char(text: &mut String, c: char)
    ensures
        final(text)@ == old(text)@.push(c),
{
    text.push(c)
}

} // verus!
