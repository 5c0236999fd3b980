//! What is decided around the reading of a file.
use vstd::prelude::*;
use vstd::string::*;

use crate::cache::FileVersion;
use crate::matcher::Matcher;
use crate::matcher::MatcherView;
use crate::patterns::regex_matches;
use crate::plan::matcher_views;
use crate::plan::MAX_FILE_SIZE;
use crate::sorted_map::SortedMap;
use crate::text::decode;
use crate::text::has_char;
use crate::worktree::MTime;

verus! {

/// What the file system says of a file.
#[derive(Clone, Copy, Debug, PartialEq, Eq, Structural)]
pub struct Metadata {
    pub inode: u64,
    pub mtime: MTime,
    pub len: u64,
    pub is_dir: bool,
    pub is_fifo: bool,
}

/// What to do about a file, before it is read.
pub enum BeforeRead {
    /// It is not there.
    Failed(String),
    /// It is not to be read, and matches nothing.
    Settled(SortedMap<String, bool>),
    /// Read it up to this many bytes, and then ask for its metadata again: they were these.
    Read(u64, Metadata),
}

/// The file may be read.
pub open spec fn readable(meta: Metadata) -> bool {
    !meta.is_fifo && !meta.is_dir && meta.len <= MAX_FILE_SIZE
}

/// The answers of the matchers, by fingerprint.
pub open spec fn tabulated(matchers: Seq<MatcherView>, answers: Seq<bool>) -> Map<Seq<char>, bool>
    decreases matchers.len(),
{
    if matchers.len() == 0 {
        Map::empty()
    } else {
        tabulated(matchers.drop_last(), answers).insert(
            matchers.last().fingerprint,
            answers[matchers.len() - 1],
        )
    }
}

/// Which of the matchers match a text. What is no text matches nothing.
pub open spec fn answers_of(matchers: Seq<MatcherView>, text: Option<Seq<char>>) -> Seq<bool> {
    matchers.map_values(
        |m: MatcherView|
            match text {
                Some(t) => regex_matches(m.content, t),
                None => false,
            },
    )
}

/// Which of the matchers match a text, by fingerprint.
pub open spec fn match_results(
    matchers: Seq<MatcherView>,
    text: Option<Seq<char>>,
) -> Map<Seq<char>, bool> {
    tabulated(matchers, answers_of(matchers, text))
}

/// The text of a file: UTF-8 without a NUL, and not too long.
pub open spec fn text_of(bytes: Seq<u8>) -> Option<Seq<char>> {
    if vstd::utf8::valid_utf8(bytes) && bytes.len() <= MAX_FILE_SIZE
        && !vstd::utf8::decode_utf8(bytes).contains('\0') {
        Some(vstd::utf8::decode_utf8(bytes))
    } else {
        None
    }
}

/// The file is still the one that was asked for: nothing is known to have changed since.
pub open spec fn unchanged(before: Metadata, after: Metadata, expected: FileVersion) -> bool {
    &&& before.inode == after.inode
    &&& before.mtime == after.mtime
    &&& before.len == after.len
    &&& expected == (FileVersion { inode: after.inode, mtime: Some(after.mtime), size: after.len })
}

/// Lists the answers of the matchers under their fingerprints.
pub fn tabulate(matchers: &Vec<Matcher>, answers: &Vec<bool>) -> (results: SortedMap<String, bool>)
    requires
        answers@.len() == matchers@.len(),
    ensures
        results@ == tabulated(matcher_views(matchers@), answers@),
{
    let ghost views = matcher_views(matchers@);
    let mut results: SortedMap<String, bool> = SortedMap::new();
    let mut i: usize = 0;
    assert(views.take(0) =~= Seq::<MatcherView>::empty());
    while i < matchers.len()
        invariant
            i <= matchers@.len() == answers@.len(),
            views == matcher_views(matchers@),
            results@ == tabulated(views.take(i as int), answers@),
        decreases matchers@.len() - i,
    {
        assert(views.take(i + 1).drop_last() =~= views.take(i as int));
        assert(views.take(i + 1).last() == matchers@[i as int]@);
        results.insert(matchers[i].fingerprint().clone(), answers[i]);
        i = i + 1;
    }
    assert(views.take(i as int) =~= views);
    results
}

fn evaluate(matchers: &Vec<Matcher>, text: Option<&str>) -> (results: SortedMap<String, bool>)
    ensures
        results@ == match_results(
            matcher_views(matchers@),
            match text {
                Some(t) => Some(t@),
                None => None,
            },
        ),
{
    let ghost views = matcher_views(matchers@);
    let ghost content: Option<Seq<char>> = match text {
        Some(t) => Some(t@),
        None => None,
    };
    let mut answers: Vec<bool> = Vec::new();
    let mut i: usize = 0;
    while i < matchers.len()
        invariant
            i <= matchers@.len(),
            views == matcher_views(matchers@),
            content == (match text {
                Some(t) => Some(t@),
                None => None,
            }),
            answers@.len() == i,
            forall|j: int| 0 <= j < i ==> #[trigger] answers@[j] == answers_of(views, content)[j],
        decreases matchers@.len() - i,
    {
        assert(views[i as int] == matchers@[i as int]@);
        let matched: bool = match text {
            Some(t) => matchers[i].content().is_match(t),
            None => false,
        };
        answers.push(matched);
        i = i + 1;
    }
    assert(answers@ =~= answers_of(views, content));
    tabulate(matchers, &answers)
}

/// What to do about a file with this metadata.
pub fn before_read(meta: Option<Metadata>, matchers: &Vec<Matcher>) -> (decision: BeforeRead)
    ensures
        match meta {
            None => decision matches BeforeRead::Failed(error) && error@ == "File was removed"@,
            Some(m) => if readable(m) {
                decision == BeforeRead::Read((MAX_FILE_SIZE + 1) as u64, m)
            } else {
                decision matches BeforeRead::Settled(results) && results@ == match_results(
                    matcher_views(matchers@),
                    None,
                )
            },
        },
{
    match meta {
        None => BeforeRead::Failed("File was removed".to_owned()),
        Some(m) => if m.is_fifo || m.is_dir || m.len > MAX_FILE_SIZE {
            BeforeRead::Settled(evaluate(matchers, None))
        } else {
            BeforeRead::Read(MAX_FILE_SIZE + 1, m)
        },
    }
}

/// What came of reading a file: which of the matchers match it. Where it is gone or changed since
/// it was asked for, what was read says nothing.
pub open spec fn read_result(
    before: Metadata,
    after: Option<Metadata>,
    expected: FileVersion,
    bytes: Seq<u8>,
    matchers: Seq<MatcherView>,
) -> Result<Map<Seq<char>, bool>, Seq<char>> {
    match after {
        None => Err("File was removed"@),
        Some(a) => if unchanged(before, a, expected) {
            Ok(match_results(matchers, text_of(bytes)))
        } else {
            Err("File changed while checking badges; waiting for its next update"@)
        },
    }
}

/// Judges the bytes of a file by the metadata from before and after the read.
pub fn after_read(
    before: &Metadata,
    after: Option<Metadata>,
    expected: &FileVersion,
    bytes: &Vec<u8>,
    matchers: &Vec<Matcher>,
) -> (result: Result<SortedMap<String, bool>, String>)
    ensures
        crate::cache::matches_view(result) == read_result(
            *before,
            after,
            *expected,
            bytes@,
            matcher_views(matchers@),
        ),
{
    match after {
        None => Err("File was removed".to_owned()),
        Some(a) => {
            let now = FileVersion { inode: a.inode, mtime: Some(a.mtime), size: a.len };
            if before.inode != a.inode || before.mtime != a.mtime || before.len != a.len
                || *expected != now {
                return Err(
                    "File changed while checking badges; waiting for its next update".to_owned(),
                );
            }
            let text: Option<&str> = match decode(bytes.as_slice()) {
                Some(text) => if bytes.len() as u64 <= MAX_FILE_SIZE && !has_char(text, '\0') {
                    Some(text)
                } else {
                    None
                },
                None => None,
            };
            Ok(evaluate(matchers, text))
        },
    }
}

} // verus!
