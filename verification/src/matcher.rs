//! What a rule looks for: a glob over names together with a regular expression over contents.
use vstd::prelude::*;
use vstd::string::*;

use sha2::Digest;

use crate::json::json_of_pair;
use crate::json::pair_json;
use crate::order::lemma_text_strict_total;
use crate::order::text_before;
use crate::order::OrderedKey;
use crate::order::Rank;
use crate::patterns::glob_error;
use crate::patterns::regex_error;
use crate::patterns::ContentRegex;
use crate::patterns::NameGlob;
use crate::patterns::PatternError;

verus! {

/// The SHA-256 digest of some bytes, in lower-case hexadecimal digits.
pub uninterp spec fn sha256_hex(bytes: Seq<u8>) -> Seq<char>;

/// A digit of the hexadecimal notation, in lower case.
pub open spec fn hex_digit(c: char) -> bool {
    '0' <= c <= '9' || 'a' <= c <= 'f'
}

/// A text of 64 hexadecimal digits.
pub open spec fn is_digest(text: Seq<char>) -> bool {
    text.len() == 64 && forall|i: int| 0 <= i < 64 ==> hex_digit(#[trigger] text[i])
}

/// `sha2::Sha256::digest`, written with the `LowerHex` of its output: 64 hexadecimal digits, which
/// depend on the bytes alone.
#[verifier::external_body]
fn sha256(bytes: &[u8]) -> (digits: String)
    ensures
        digits@ == sha256_hex(bytes@),
        is_digest(digits@),
{
    format!("{:x}", sha2::Sha256::digest(bytes))
}

/// The name under which the results of a glob and an expression are kept.
pub open spec fn fingerprint(patterns: PatternsView) -> Seq<char> {
    sha256_hex(pair_json(patterns.filename, patterns.content))
}

/// What two patterns look for, and under which name.
pub open spec fn matcher_of(patterns: PatternsView) -> MatcherView {
    MatcherView {
        fingerprint: fingerprint(patterns),
        filename: patterns.filename,
        content: patterns.content,
    }
}

/// Why two patterns make no matcher, if they do not: what is wrong with the glob comes first.
pub open spec fn matcher_error(patterns: PatternsView) -> Option<Seq<char>> {
    match glob_error(patterns.filename) {
        Some(text) => Some(text),
        None => regex_error(patterns.content),
    }
}

/// The two patterns of a rule.
#[derive(Debug, PartialEq, Eq)]
pub struct Patterns {
    pub filename: String,
    pub content: String,
}

/// The model of [`Patterns`].
pub ghost struct PatternsView {
    pub filename: Seq<char>,
    pub content: Seq<char>,
}

impl View for Patterns {
    type V = PatternsView;

    open spec fn view(&self) -> PatternsView {
        PatternsView { filename: self.filename@, content: self.content@ }
    }
}

impl OrderedKey for Patterns {
    open spec fn before(a: PatternsView, b: PatternsView) -> bool {
        text_before(a.filename, b.filename) || (a.filename == b.filename && text_before(
            a.content,
            b.content,
        ))
    }

    proof fn lemma_strict_total() {
        lemma_text_strict_total();
        let lt = |a: Seq<char>, b: Seq<char>| text_before(a, b);
        let before = |a: PatternsView, b: PatternsView| Self::before(a, b);
        assert forall|a: PatternsView| !#[trigger] before(a, a) by {
            assert(!lt(a.filename, a.filename));
            assert(!lt(a.content, a.content));
        }
        assert forall|a: PatternsView, b: PatternsView, c: PatternsView| #[trigger]
            before(a, b) && #[trigger] before(b, c) implies before(a, c) by {
            assert(lt(a.filename, b.filename) && lt(b.filename, c.filename) ==> lt(
                a.filename,
                c.filename,
            ));
            assert(lt(a.content, b.content) && lt(b.content, c.content) ==> lt(
                a.content,
                c.content,
            ));
        }
        assert forall|a: PatternsView, b: PatternsView| a != b implies #[trigger] before(a, b)
            || before(b, a) by {
            assert(lt(a.filename, b.filename) || lt(b.filename, a.filename) || a.filename
                == b.filename);
            assert(lt(a.content, b.content) || lt(b.content, a.content) || a.content == b.content);
        }
    }

    fn rank(&self, other: &Self) -> (r: Rank) {
        match self.filename.rank(&other.filename) {
            Rank::Same => self.content.rank(&other.content),
            apart => apart,
        }
    }
}

/// The model of a [`Matcher`].
pub ghost struct MatcherView {
    pub fingerprint: Seq<char>,
    pub filename: Seq<char>,
    pub content: Seq<char>,
}

/// A glob and an expression that can both be used.
#[derive(Debug, PartialEq, Eq)]
pub struct Matcher {
    fingerprint: String,
    filename: NameGlob,
    content: ContentRegex,
}

impl View for Matcher {
    type V = MatcherView;

    closed spec fn view(&self) -> MatcherView {
        MatcherView {
            fingerprint: self.fingerprint@,
            filename: self.filename@,
            content: self.content@,
        }
    }
}

impl Clone for Matcher {
    fn clone(&self) -> (copy: Self)
        ensures
            copy@ == self@,
    {
        proof {
            use_type_invariant(self);
        }
        Matcher {
            fingerprint: self.fingerprint.clone(),
            filename: self.filename.clone(),
            content: self.content.clone(),
        }
    }
}

impl Matcher {
    #[verifier::type_invariant]
    spec fn named(self) -> bool {
        &&& self.fingerprint@ == fingerprint(
            PatternsView { filename: self.filename@, content: self.content@ },
        )
        &&& is_digest(self.fingerprint@)
    }

    pub fn compile(filename: &str, content_regex: &str) -> (matcher: Result<Matcher, PatternError>)
        ensures
            ({
                let patterns = PatternsView { filename: filename@, content: content_regex@ };
                match matcher {
                    Ok(m) => m@ == matcher_of(patterns) && matcher_error(patterns) is None,
                    Err(e) => matcher_error(patterns) == Some(e.message@),
                }
            }),
    {
        let json = json_of_pair(filename, content_regex);
        let fingerprint = sha256(json.as_slice());
        match NameGlob::new(filename) {
            Err(error) => Err(error),
            Ok(glob) => match ContentRegex::new(content_regex) {
                Err(error) => Err(error),
                Ok(regex) => Ok(Matcher { fingerprint, filename: glob, content: regex }),
            },
        }
    }

    pub fn fingerprint(&self) -> (name: &String)
        ensures
            name@ == self@.fingerprint,
            is_digest(name@),
    {
        proof {
            use_type_invariant(self);
        }
        &self.fingerprint
    }

    /// What file names have to match.
    pub fn filename(&self) -> (glob: &NameGlob)
        ensures
            glob@ == self@.filename,
    {
        &self.filename
    }

    /// What is looked for in file contents.
    pub fn content(&self) -> (regex: &ContentRegex)
        ensures
            regex@ == self@.content,
    {
        &self.content
    }
}

} // verus!
