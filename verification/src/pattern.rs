//! Ignore patterns: regular expressions, compiled by the `regex` crate, that
//! name the words a search passes over.

use vstd::prelude::*;
use vstd::string::StringExecFns;

verus! {

/// A compiled regular expression of the `regex` crate. Nothing is known
/// here of what is inside.
#[verifier::external_type_specification]
#[verifier::external_body]
pub struct ExRegex(regex::Regex);

/// The error with which the `regex` crate refuses a pattern.
#[verifier::external_type_specification]
#[verifier::external_body]
pub struct ExRegexError(regex::Error);

/// What `Regex::new` returns for the pattern `re`.
pub uninterp spec fn regex_new(re: Seq<char>) -> Result<regex::Regex, regex::Error>;

/// `Regex::new` compiles a pattern or refuses it. It builds with the
/// crate's own fixed limits and settings, so that its answer is a function
/// of the pattern's text alone; it does not panic.
pub assume_specification[ regex::Regex::new ](re: &str) -> (r: Result<regex::Regex, regex::Error>)
    ensures
        r == regex_new(re@),
;

/// What `Regex::is_match` returns for the expression `re` and `text`.
pub uninterp spec fn is_match_of(re: regex::Regex, text: Seq<char>) -> bool;

/// `Regex::is_match` says whether the expression matches somewhere in the
/// text: a function of the expression and the text alone. It searches
/// from the start of the text and does not panic.
pub assume_specification[ regex::Regex::is_match ](re: &regex::Regex, haystack: &str) -> (b: bool)
    ensures
        b == is_match_of(*re, haystack@),
;

/// A pattern that could not be compiled.
#[derive(Debug)]
pub struct PatternError {
    /// What the compiler of patterns said of it.
    pub reason: String,
}

/// The pattern that matches exactly the texts which `re` matches from their
/// first character to their last.
pub open spec fn anchored(re: Seq<char>) -> Seq<char> {
    "^(?:"@ + re + ")$"@
}

/// As `anchored`, with a line break before the closing bracket. Where `re`
/// ends in a comment, which runs to the end of its line, the break ends the
/// comment; and where comments are read, a line break is passed over as
/// white space.
pub open spec fn anchored_line(re: Seq<char>) -> Seq<char> {
    "^(?:"@ + re + "\n)$"@
}

/// Whether the compiler takes the pattern `re`.
pub open spec fn compiles(re: Seq<char>) -> bool {
    regex_new(re) is Ok
}

/// What the compiler makes of the pattern `re`, where it takes it.
pub open spec fn compiled(re: Seq<char>) -> regex::Regex
    recommends
        compiles(re),
{
    regex_new(re)->Ok_0
}

/// What the compiler answers for `re` as a pattern for whole words: its
/// refusal of `re` as it stands; else what it makes of `re` between the
/// anchors; and where it refuses that, its answer for `re` between the
/// anchors with the closing bracket on a line of its own.
pub open spec fn whole_word(re: Seq<char>) -> Result<regex::Regex, regex::Error> {
    match regex_new(re) {
        Err(e) => Err(e),
        Ok(_) => match regex_new(anchored(re)) {
            Ok(pattern) => Ok(pattern),
            Err(_) => regex_new(anchored_line(re)),
        },
    }
}

/// Compiles `re` so that it is tried against a whole word.
///
/// A pattern that the compiler takes is taken, in the first of its two
/// anchored forms that compiles. It is refused only where the compiler
/// refuses it as it stands, or refuses both anchored forms (as it does
/// where the anchors take the pattern over one of its limits); the refusal
/// is what the compiler said.
pub(crate) fn compile_whole(re: &str) -> (r: Result<regex::Regex, PatternError>)
    ensures
        r is Ok <==> compiles(re@) && (compiles(anchored(re@)) || compiles(anchored_line(re@))),
        match whole_word(re@) {
            Ok(pattern) => r == Ok::<regex::Regex, PatternError>(pattern),
            Err(e) => r matches Err(refused) && tells(e, refused),
        },
{
    let plain = regex::Regex::new(re);
    let whole = regex::Regex::new(anchor(re).as_str());
    if plain.is_ok() && whole.is_err() {
        settle(plain, regex::Regex::new(anchor_line(re).as_str()))
    } else {
        settle(plain, whole)
    }
}

/// The text of the pattern that is handed to the compiler for `re`: `re`
/// in a group of its own, between the anchors of start and end.
pub fn anchor(re: &str) -> (whole: String)
    ensures
        whole@ == anchored(re@),
{
    let mut whole = String::from_str("^(?:");
    whole.append(re);
    whole.append(")$");
    whole
}

/// The text of the pattern that is handed to the compiler for `re` where it
/// refused the first: as `anchor`, with a line break before the closing
/// bracket.
pub fn anchor_line(re: &str) -> (whole: String)
    ensures
        whole@ == anchored_line(re@),
{
    let mut whole = String::from_str("^(?:");
    whole.append(re);
    whole.append("\n)$");
    whole
}

/// Whether `refused` says of a pattern what the compiler's error `e` says of it.
pub open spec fn tells(e: regex::Error, refused: PatternError) -> bool {
    vstd::string::to_string_from_display_ensures::<regex::Error>(&e, refused.reason)
}

/// What becomes of a pattern once the compiler has answered for it as it
/// stands (`plain`) and for the anchored form that is to stand for it
/// (`whole`).
///
/// It is taken, as compiled in the anchored form, where both compiled. It
/// is refused where it does not compile as it stands, with what the
/// compiler said of it; and where only the anchored form does not compile,
/// with what the compiler said of that.
pub fn settle(
    plain: Result<regex::Regex, regex::Error>,
    whole: Result<regex::Regex, regex::Error>,
) -> (r: Result<regex::Regex, PatternError>)
    ensures
        match (plain, whole) {
            (Ok(_), Ok(compiled)) => r == Ok::<regex::Regex, PatternError>(compiled),
            (Err(e), _) => r matches Err(refused) && tells(e, refused),
            (Ok(_), Err(e)) => r matches Err(refused) && tells(e, refused),
        },
{
    match plain {
        Err(e) => Err(PatternError { reason: e.to_string() }),
        Ok(_) => match whole {
            Err(e) => Err(PatternError { reason: e.to_string() }),
            Ok(compiled) => Ok(compiled),
        },
    }
}

} // verus!
