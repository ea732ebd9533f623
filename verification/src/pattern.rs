//! The forbidden-hostname pattern: a regular expression compiled once, at
//! configuration time, and held beside its source text. Matching is done by
//! the regex crate; what the engine relies on of it is stated on the two
//! trusted items below and nowhere else.
use vstd::prelude::*;
use vstd::string::StringExecFns;

verus! {

#[verifier::external_type_specification]
#[verifier::external_body]
pub struct ExRegex(regex::Regex);

/// Whether the regex crate accepts `pattern` as a pattern: exactly the
/// inputs `regex::Regex::new` compiles.
pub uninterp spec fn regex_valid(pattern: Seq<char>) -> bool;

/// Whether the pattern, compiled, finds a match anywhere in `text`: what
/// `regex::Regex::is_match` returns for that pattern and haystack.
pub uninterp spec fn regex_match(pattern: Seq<char>, text: Seq<char>) -> bool;

/// A compiled forbidden-hostname pattern, carried with its source text. The
/// matcher is only ever built from the source it sits beside.
pub struct HostPattern {
    source: String,
    re: regex::Regex,
}

impl View for HostPattern {
    type V = Seq<char>;

    closed spec fn view(&self) -> Seq<char> {
        self.source@
    }
}

/// Why a pattern was rejected at configuration time.
#[derive(Clone, Debug)]
pub enum PatternError {
    InvalidPattern(String),
}

/// Relies on regex::Regex::new: it returns `Ok` exactly on the patterns the
/// crate accepts, and the matcher it builds depends on the pattern text
/// alone, so the pair can be carried as one value.
#[verifier::external_body]
fn compile_regex(src: &str) -> (r: Option<HostPattern>)
    ensures
        r is Some <==> regex_valid(src@),
        r matches Some(p) ==> p@ == src@,
{
    match regex::Regex::new(src) {
        Ok(re) => Some(HostPattern { source: src.to_owned(), re }),
        Err(_) => None,
    }
}

/// Relies on regex::Regex::is_match: deterministic in the pattern the
/// matcher was compiled from and in the text searched.
#[verifier::external_body]
fn regex_is_match(p: &HostPattern, text: &str) -> (r: bool)
    ensures
        r == regex_match(p@, text@),
{
    p.re.is_match(text)
}

impl HostPattern {
    /// Compile a pattern. Succeeds exactly on the patterns the regex crate
    /// accepts; a rejection carries the offending pattern text.
    pub fn new(src: &str) -> (r: Result<HostPattern, PatternError>)
        ensures
            r matches Ok(p) ==> regex_valid(src@) && p@ == src@,
            r matches Err(e) ==> !regex_valid(src@) && (e matches PatternError::InvalidPattern(t)
                && t@ == src@),
    {
        match compile_regex(src) {
            Some(p) => Ok(p),
            None => Err(PatternError::InvalidPattern(String::from_str(src))),
        }
    }

    /// Whether `name` is forbidden: the pattern matches somewhere in it.
    pub fn matches_name(&self, name: &str) -> (r: bool)
        ensures
            r == regex_match(self@, name@),
    {
        regex_is_match(self, name)
    }

    /// The pattern's source text.
    pub fn source_text(&self) -> (r: String)
        ensures
            r@ == self@,
    {
        self.source.clone()
    }
}

} // verus!
