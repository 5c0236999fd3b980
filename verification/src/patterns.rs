//! Globs over file names and regular expressions over file contents.
use vstd::prelude::*;
use vstd::string::*;

verus! {

/// The regular expression that `globset::Glob::new` makes of a glob, or the text of its error.
pub uninterp spec fn glob_expression(pattern: Seq<char>) -> Result<Seq<char>, Seq<char>>;

/// `globset::Glob::new`, then `Glob::regex` or the error's `Display`. What comes out depends on
/// the glob alone, given the path separator of the platform: where that is `\`, a backslash in a
/// glob is a separator, elsewhere it escapes the next character.
#[verifier::external_body]
fn expression_of_glob(pattern: &str) -> (expression: Result<String, String>)
    ensures
        match expression {
            Ok(text) => glob_expression(pattern@) == Ok::<Seq<char>, Seq<char>>(text@),
            Err(text) => glob_expression(pattern@) == Err::<Seq<char>, Seq<char>>(text@),
        },
{
    match globset::Glob::new(pattern) {
        Ok(glob) => Ok(glob.regex().to_string()),
        Err(error) => Err(error.to_string()),
    }
}

/// The text of the error with which an expression over bytes is refused, if it is.
pub uninterp spec fn byte_regex_error(expression: Seq<char>) -> Option<Seq<char>>;

/// `regex::bytes::RegexBuilder`, with `.` matching line ends: the error's `Display`, if the
/// expression does not build. It builds under the syntax options and the size limit that
/// `globset::Glob::compile_matcher` builds under, which panics where this fails.
#[verifier::external_body]
fn refused_over_bytes(expression: &str) -> (error: Option<String>)
    ensures
        match error {
            Some(text) => byte_regex_error(expression@) == Some(text@),
            None => byte_regex_error(expression@) is None,
        },
{
    match regex::bytes::RegexBuilder::new(expression).dot_matches_new_line(true).build() {
        Ok(_) => None,
        Err(error) => Some(error.to_string()),
    }
}

/// Why a glob cannot be used, if it cannot.
pub open spec fn glob_error(pattern: Seq<char>) -> Option<Seq<char>> {
    match glob_expression(pattern) {
        Err(text) => Some(text),
        Ok(expression) => byte_regex_error(expression),
    }
}

/// Whether the matcher of a glob accepts a path.
pub uninterp spec fn glob_matches(pattern: Seq<char>, path: Seq<char>) -> bool;

/// `globset::GlobMatcher::is_match` of the matcher compiled from a glob. What it answers depends
/// on the glob and on the path alone, given the path separator of the platform.
#[verifier::external_body]
fn glob_accepts(pattern: &str, path: &str) -> (yes: bool)
    requires
        glob_error(pattern@) is None,
    ensures
        yes == glob_matches(pattern@, path@),
{
    globset::Glob::new(pattern).unwrap().compile_matcher().is_match(path)
}

/// The text of the error with which `regex::Regex::new` refuses an expression, if it does.
pub uninterp spec fn regex_error(pattern: Seq<char>) -> Option<Seq<char>>;

/// `regex::Regex::new`: the error's `Display`, if the expression does not compile.
#[verifier::external_body]
fn refused_regex(pattern: &str) -> (error: Option<String>)
    ensures
        match error {
            Some(text) => regex_error(pattern@) == Some(text@),
            None => regex_error(pattern@) is None,
        },
{
    match regex::Regex::new(pattern) {
        Ok(_) => None,
        Err(error) => Some(error.to_string()),
    }
}

/// Whether a regular expression matches somewhere in a text.
pub uninterp spec fn regex_matches(pattern: Seq<char>, text: Seq<char>) -> bool;

/// `regex::Regex::is_match` of the compiled expression: the answer depends on the expression and
/// on the text alone.
#[verifier::external_body]
fn regex_accepts(pattern: &str, text: &str) -> (yes: bool)
    requires
        regex_error(pattern@) is None,
    ensures
        yes == regex_matches(pattern@, text@),
{
    regex::Regex::new(pattern).unwrap().is_match(text)
}

/// Why a pattern cannot be used.
#[derive(Debug, PartialEq, Eq)]
pub struct PatternError {
    pub message: String,
}

/// A glob that can be matched against file names.
#[derive(Debug, PartialEq, Eq)]
pub struct NameGlob {
    pattern: String,
}

impl View for NameGlob {
    type V = Seq<char>;

    closed spec fn view(&self) -> Seq<char> {
        self.pattern@
    }
}

impl Clone for NameGlob {
    fn clone(&self) -> (copy: Self)
        ensures
            copy@ == self@,
    {
        proof {
            use_type_invariant(self);
        }
        NameGlob { pattern: self.pattern.clone() }
    }
}

impl NameGlob {
    #[verifier::type_invariant]
    spec fn usable(self) -> bool {
        glob_error(self.pattern@) is None
    }

    pub fn new(pattern: &str) -> (glob: Result<NameGlob, PatternError>)
        ensures
            match glob {
                Ok(g) => g@ == pattern@ && glob_error(pattern@) is None,
                Err(e) => glob_error(pattern@) == Some(e.message@),
            },
    {
        match expression_of_glob(pattern) {
            Err(message) => Err(PatternError { message }),
            Ok(expression) => match refused_over_bytes(expression.as_str()) {
                Some(message) => Err(PatternError { message }),
                None => Ok(NameGlob { pattern: pattern.to_owned() }),
            },
        }
    }

    pub fn is_match(&self, name: &str) -> (yes: bool)
        ensures
            yes == glob_matches(self@, name@),
            glob_error(self@) is None,
    {
        proof {
            use_type_invariant(self);
        }
        glob_accepts(self.pattern.as_str(), name)
    }
}

/// A regular expression that can be searched for in file contents.
#[derive(Debug, PartialEq, Eq)]
pub struct ContentRegex {
    pattern: String,
}

impl View for ContentRegex {
    type V = Seq<char>;

    closed spec fn view(&self) -> Seq<char> {
        self.pattern@
    }
}

impl Clone for ContentRegex {
    fn clone(&self) -> (copy: Self)
        ensures
            copy@ == self@,
    {
        proof {
            use_type_invariant(self);
        }
        ContentRegex { pattern: self.pattern.clone() }
    }
}

impl ContentRegex {
    #[verifier::type_invariant]
    spec fn usable(self) -> bool {
        regex_error(self.pattern@) is None
    }

    pub fn new(pattern: &str) -> (regex: Result<ContentRegex, PatternError>)
        ensures
            match regex {
                Ok(r) => r@ == pattern@ && regex_error(pattern@) is None,
                Err(e) => regex_error(pattern@) == Some(e.message@),
            },
    {
        match refused_regex(pattern) {
            Some(message) => Err(PatternError { message }),
            None => Ok(ContentRegex { pattern: pattern.to_owned() }),
        }
    }

    pub fn is_match(&self, text: &str) -> (yes: bool)
        ensures
            yes == regex_matches(self@, text@),
            regex_error(self@) is None,
    {
        proof {
            use_type_invariant(self);
        }
        regex_accepts(self.pattern.as_str(), text)
    }
}

} // verus!
