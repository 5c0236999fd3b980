//! What reading a file tells of it.
use vstd::prelude::*;
use vstd::utf8::decode_utf8;
use vstd::utf8::decode_utf8_encode_utf8;
use vstd::utf8::encode_utf8;
use vstd::utf8::encode_utf8_decode_utf8;
use vstd::utf8::encode_utf8_valid_utf8;
use vstd::utf8::valid_utf8;

use crate::badge_laws::law_no_text_matches_nothing;
use crate::cache::FileVersion;
use crate::matcher::Matcher;
use crate::matcher::MatcherView;
use crate::patterns::regex_matches;
use crate::plan::has_fingerprint;
use crate::plan::matcher_views;
use crate::read::after_read;
use crate::read::answers_of;
use crate::read::before_read;
use crate::read::match_results;
use crate::read::tabulate;
use crate::read::tabulated;
use crate::read::text_of;
use crate::read::BeforeRead;
use crate::read::Metadata;
use crate::sorted_map::SortedMap;

verus! {

/// A file that did not change while it was read, and whose bytes are a text of at most 2 MiB
/// without a NUL, tells of each matcher whether its expression matches that text, and of nothing
/// else.
pub proof fn law_texts_are_matched(
    before: &Metadata,
    after: Metadata,
    expected: &FileVersion,
    bytes: &Vec<u8>,
    matchers: &Vec<Matcher>,
    result: Result<SortedMap<String, bool>, String>,
    text: Seq<char>,
)
    requires
        call_ensures(after_read, (before, Some(after), expected, bytes, matchers), result),
        before.inode == after.inode,
        before.mtime == after.mtime,
        before.len == after.len,
        expected.inode == after.inode,
        expected.mtime == Some(after.mtime),
        expected.size == after.len,
        bytes@ == encode_utf8(text),
        bytes@.len() <= 2097152,
        forall|i: int| 0 <= i < text.len() ==> #[trigger] text[i] != '\0',
    ensures
        result is Ok,
        forall|name: Seq<char>| #[trigger]
            result->Ok_0@.contains_key(name) <==> exists|k: int|
                0 <= k < matchers@.len() && (#[trigger] matchers@[k])@.fingerprint == name,
        forall|k: int|
            0 <= k < matchers@.len() && (forall|j: int|
                0 <= j < matchers@.len() && (#[trigger] matchers@[j])@.fingerprint
                    == matchers@[k]@.fingerprint ==> matchers@[j]@.content == matchers@[k]@.content)
                ==> result->Ok_0@[(#[trigger] matchers@[k])@.fingerprint] == regex_matches(
                matchers@[k]@.content,
                text,
            ),
{
    encode_utf8_valid_utf8(text);
    encode_utf8_decode_utf8(text);
    assert(!text.contains('\0'));
    lemma_results(matchers@, Some(text));
}

/// A file that did not change while it was read, and whose bytes are no text, or one that holds a
/// NUL or is larger than 2 MiB, matches nothing.
pub proof fn law_other_bytes_match_nothing(
    before: &Metadata,
    after: Metadata,
    expected: &FileVersion,
    bytes: &Vec<u8>,
    matchers: &Vec<Matcher>,
    result: Result<SortedMap<String, bool>, String>,
)
    requires
        call_ensures(after_read, (before, Some(after), expected, bytes, matchers), result),
        before.inode == after.inode,
        before.mtime == after.mtime,
        before.len == after.len,
        expected.inode == after.inode,
        expected.mtime == Some(after.mtime),
        expected.size == after.len,
        bytes@.len() > 2097152 || forall|text: Seq<char>|
            bytes@ == #[trigger] encode_utf8(text) ==> text.contains('\0'),
    ensures
        result is Ok,
        forall|name: Seq<char>| #[trigger]
            result->Ok_0@.contains_key(name) <==> exists|k: int|
                0 <= k < matchers@.len() && (#[trigger] matchers@[k])@.fingerprint == name,
        forall|name: Seq<char>| #[trigger]
            result->Ok_0@.contains_key(name) ==> !result->Ok_0@[name],
{
    if valid_utf8(bytes@) {
        decode_utf8_encode_utf8(bytes@);
        assert(bytes@ == encode_utf8(decode_utf8(bytes@)));
    }
    assert(text_of(bytes@) is None);
    law_no_text_matches_nothing(matcher_views(matchers@), None);
    lemma_results(matchers@, None);
}

/// A file that is gone after it was read, or is another one then, or is not the one that was asked
/// for, tells nothing.
pub proof fn law_changed_files_tell_nothing(
    before: &Metadata,
    after: Option<Metadata>,
    expected: &FileVersion,
    bytes: &Vec<u8>,
    matchers: &Vec<Matcher>,
    result: Result<SortedMap<String, bool>, String>,
)
    requires
        call_ensures(after_read, (before, after, expected, bytes, matchers), result),
        after matches Some(a) ==> before.inode != a.inode || before.mtime != a.mtime || before.len
            != a.len || expected.inode != a.inode || expected.mtime != Some(a.mtime)
            || expected.size != a.len,
    ensures
        result is Err,
        result->Err_0@ == if after is None {
            "File was removed"@
        } else {
            "File changed while checking badges; waiting for its next update"@
        },
{
}

/// A file that is gone is not read, and neither is a pipe, a directory, or what is larger than
/// 2 MiB: these match nothing. Any other file is read, up to one byte more than that.
pub proof fn law_what_is_read(
    meta: Option<Metadata>,
    matchers: &Vec<Matcher>,
    decision: BeforeRead,
)
    requires
        call_ensures(before_read, (meta, matchers), decision),
    ensures
        meta is None ==> (decision matches BeforeRead::Failed(error) && error@
            == "File was removed"@),
        meta matches Some(m) ==> ((m.is_fifo || m.is_dir || m.len > 2097152) == (decision is Settled)),
        meta matches Some(m) ==> (!(m.is_fifo || m.is_dir || m.len > 2097152) ==> decision
            == BeforeRead::Read(2097153, m)),
        decision matches BeforeRead::Settled(results) ==> forall|name: Seq<char>|
            {
                &&& #[trigger] results@.contains_key(name) <==> exists|k: int|
                    0 <= k < matchers@.len() && (#[trigger] matchers@[k])@.fingerprint == name
                &&& results@.contains_key(name) ==> !results@[name]
            },
{
    law_no_text_matches_nothing(matcher_views(matchers@), None);
    lemma_results(matchers@, None);
}

proof fn lemma_results(matchers: Seq<Matcher>, text: Option<Seq<char>>)
    ensures
        forall|name: Seq<char>| #[trigger]
            match_results(matcher_views(matchers), text).contains_key(name) <==> exists|k: int|
                0 <= k < matchers.len() && (#[trigger] matchers[k])@.fingerprint == name,
        forall|k: int|
            0 <= k < matchers.len() && (forall|j: int|
                0 <= j < matchers.len() && (#[trigger] matchers[j])@.fingerprint
                    == matchers[k]@.fingerprint ==> matchers[j]@.content == matchers[k]@.content)
                ==> match_results(matcher_views(matchers), text)[(
            #[trigger] matchers[k])@.fingerprint] == (text is Some && regex_matches(
                matchers[k]@.content,
                text->0,
            )),
{
    let views = matcher_views(matchers);
    law_no_text_matches_nothing(views, text);
    assert forall|k: int| 0 <= k < matchers.len() implies #[trigger] views[k] == matchers[k]@ by {}
    assert forall|name: Seq<char>| #[trigger]
        match_results(views, text).contains_key(name) <==> exists|k: int|
            0 <= k < matchers.len() && (#[trigger] matchers[k])@.fingerprint == name by {
        if has_fingerprint(views, name) {
            let k = choose|k: int| 0 <= k < views.len() && (#[trigger] views[k]).fingerprint == name;
            assert(matchers[k]@.fingerprint == name);
        }
        if exists|k: int| 0 <= k < matchers.len() && (#[trigger] matchers[k])@.fingerprint == name {
            let k = choose|k: int|
                0 <= k < matchers.len() && (#[trigger] matchers[k])@.fingerprint == name;
            assert(views[k].fingerprint == name);
        }
    }
    assert forall|k: int|
        0 <= k < matchers.len() && (forall|j: int|
            0 <= j < matchers.len() && (#[trigger] matchers[j])@.fingerprint
                == matchers[k]@.fingerprint ==> matchers[j]@.content == matchers[k]@.content) implies
    match_results(views, text)[(#[trigger] matchers[k])@.fingerprint] == (text is Some
        && regex_matches(matchers[k]@.content, text->0)) by {
        let name = matchers[k]@.fingerprint;
        assert(views[k].fingerprint == name);
        lemma_tabulated_last(views, answers_of(views, text), name, k);
        let j = choose|j: int|
            0 <= j < views.len() && (#[trigger] views[j]).fingerprint == name && tabulated(
                views,
                answers_of(views, text),
            )[name] == answers_of(views, text)[j];
        assert(views[j] == matchers[j]@);
        assert(matchers[j]@.content == matchers[k]@.content);
    }
}

proof fn lemma_tabulated_last(
    matchers: Seq<MatcherView>,
    answers: Seq<bool>,
    name: Seq<char>,
    k: int,
)
    requires
        0 <= k < matchers.len(),
        matchers[k].fingerprint == name,
    ensures
        exists|j: int|
            0 <= j < matchers.len() && (#[trigger] matchers[j]).fingerprint == name && tabulated(
                matchers,
                answers,
            )[name] == answers[j],
    decreases matchers.len(),
{
    let last = matchers.len() - 1;
    if matchers[last].fingerprint == name {
        assert(tabulated(matchers, answers)[name] == answers[last]);
    } else {
        let init = matchers.drop_last();
        assert(init[k] == matchers[k]);
        lemma_tabulated_last(init, answers, name, k);
        let j = choose|j: int|
            0 <= j < init.len() && (#[trigger] init[j]).fingerprint == name && tabulated(
                init,
                answers,
            )[name] == answers[j];
        assert(matchers[j] == init[j]);
    }
}

/// What is listed of the matchers is each answer under the name of its matcher.
pub proof fn law_answers_are_listed(
    matchers: &Vec<Matcher>,
    answers: &Vec<bool>,
    results: SortedMap<String, bool>,
    k: int,
)
    requires
        answers@.len() == matchers@.len(),
        call_ensures(tabulate, (matchers, answers), results),
        0 <= k < matchers@.len(),
        forall|j: int|
            k < j < matchers@.len() ==> (#[trigger] matchers@[j])@.fingerprint
                != matchers@[k]@.fingerprint,
    ensures
        results@.contains_key(matchers@[k]@.fingerprint),
        results@[matchers@[k]@.fingerprint] == answers@[k],
{
    let views = matcher_views(matchers@);
    assert(views[k] == matchers@[k]@);
    assert forall|j: int| k < j < views.len() implies (#[trigger] views[j]).fingerprint
        != views[k].fingerprint by {
        assert(views[j] == matchers@[j]@);
    }
    lemma_last_answer(views, answers@, k);
}

proof fn lemma_last_answer(matchers: Seq<MatcherView>, answers: Seq<bool>, k: int)
    requires
        0 <= k < matchers.len(),
        forall|j: int|
            k < j < matchers.len() ==> (#[trigger] matchers[j]).fingerprint
                != matchers[k].fingerprint,
    ensures
        tabulated(matchers, answers).contains_key(matchers[k].fingerprint),
        tabulated(matchers, answers)[matchers[k].fingerprint] == answers[k],
    decreases matchers.len(),
{
    let last = matchers.len() - 1;
    if k < last {
        let init = matchers.drop_last();
        assert forall|j: int| k < j < init.len() implies (#[trigger] init[j]).fingerprint
            != init[k].fingerprint by {
            assert(init[j] == matchers[j]);
        }
        lemma_last_answer(init, answers, k);
        assert(matchers[last].fingerprint != matchers[k].fingerprint);
    }
}

} // verus!
