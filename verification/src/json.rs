//! The JSON over which fingerprints are taken: an array of two strings.
use vstd::prelude::*;
use vstd::utf8::encode_utf8;
use vstd::utf8::encode_utf8_decode_utf8;

verus! {

/// A digit of the hexadecimal notation, in lower case.
pub open spec fn hex_char(d: nat) -> char {
    if d < 10 {
        (48 + d) as char
    } else {
        (87 + d) as char
    }
}

/// A character as it stands in a JSON string: quotes, backslashes and control characters are
/// escaped, by a letter where there is one.
pub open spec fn escape(c: char) -> Seq<char> {
    let u = c as nat;
    if c == '"' {
        seq!['\\', '"']
    } else if c == '\\' {
        seq!['\\', '\\']
    } else if u == 0x8 {
        seq!['\\', 'b']
    } else if u == 0x9 {
        seq!['\\', 't']
    } else if u == 0xa {
        seq!['\\', 'n']
    } else if u == 0xc {
        seq!['\\', 'f']
    } else if u == 0xd {
        seq!['\\', 'r']
    } else if u < 0x20 {
        seq!['\\', 'u', '0', '0', hex_char(u / 16), hex_char(u % 16)]
    } else {
        seq![c]
    }
}

/// A text as it stands in a JSON string.
pub open spec fn escaped(text: Seq<char>) -> Seq<char>
    decreases text.len(),
{
    if text.len() == 0 {
        Seq::empty()
    } else {
        escape(text[0]) + escaped(text.drop_first())
    }
}

/// The JSON array of two strings, without white space.
pub open spec fn pair_text(first: Seq<char>, second: Seq<char>) -> Seq<char> {
    seq!['[', '"'] + (escaped(first) + (seq!['"', ',', '"'] + (escaped(second) + seq!['"', ']'])))
}

/// The JSON array of two strings, in UTF-8.
pub open spec fn pair_json(first: Seq<char>, second: Seq<char>) -> Seq<u8> {
    encode_utf8(pair_text(first, second))
}

/// `serde_json::to_vec` of a pair of strings: an array of the two, in UTF-8 and without white
/// space, in which quotes, backslashes and the characters below U+0020 are escaped. It fails only
/// where a value refuses to be serialized or a map has keys that are no strings, so not here.
#[verifier::external_body]
pub(crate) fn json_of_pair(first: &str, second: &str) -> (json: Vec<u8>)
    ensures
        json@ == pair_json(first@, second@),
{
    serde_json::to_vec(&(first, second)).unwrap()
}

/// What stands for a character tells which one it is, and where it ends.
proof fn lemma_escape(a: char, b: char, s: Seq<char>, t: Seq<char>)
    requires
        escape(a) + s == escape(b) + t,
    ensures
        a == b,
        s == t,
{
    let left = escape(a) + s;
    let right = escape(b) + t;
    assert(left[0] == escape(a)[0]);
    assert(right[0] == escape(b)[0]);
    if escape(a).len() > 1 {
        assert(left[1] == escape(a)[1]);
    }
    if escape(b).len() > 1 {
        assert(right[1] == escape(b)[1]);
    }
    if escape(a).len() == 6 && escape(b).len() == 6 {
        assert(left[4] == escape(a)[4] && left[5] == escape(a)[5]);
        assert(right[4] == escape(b)[4] && right[5] == escape(b)[5]);
        assert(a as nat / 16 == b as nat / 16);
        assert(a as nat % 16 == b as nat % 16);
    }
    assert(a == b);
    assert(left.skip(escape(a).len() as int) =~= s);
    assert(right.skip(escape(b).len() as int) =~= t);
}

/// A JSON string tells which text it holds, and where it ends.
proof fn lemma_escaped(a: Seq<char>, b: Seq<char>, s: Seq<char>, t: Seq<char>)
    requires
        s.len() > 0,
        t.len() > 0,
        s[0] == '"',
        t[0] == '"',
        escaped(a) + s == escaped(b) + t,
    ensures
        a == b,
        s == t,
    decreases a.len(),
{
    let left = escaped(a) + s;
    let right = escaped(b) + t;
    if a.len() == 0 || b.len() == 0 {
        if a.len() > 0 {
            assert(left[0] == escape(a[0])[0]);
            assert(right[0] == t[0]);
        }
        if b.len() > 0 {
            assert(right[0] == escape(b[0])[0]);
            assert(left[0] == s[0]);
        }
        assert(a =~= b);
        assert(left =~= s);
        assert(right =~= t);
    } else {
        let more_a = escaped(a.drop_first());
        let more_b = escaped(b.drop_first());
        assert(left =~= escape(a[0]) + (more_a + s));
        assert(right =~= escape(b[0]) + (more_b + t));
        lemma_escape(a[0], b[0], more_a + s, more_b + t);
        lemma_escaped(a.drop_first(), b.drop_first(), s, t);
        assert(a =~= seq![a[0]] + a.drop_first());
        assert(b =~= seq![b[0]] + b.drop_first());
    }
}

/// Different pairs have different JSON.
pub proof fn law_json_tells_pairs_apart(
    a: Seq<char>,
    b: Seq<char>,
    c: Seq<char>,
    d: Seq<char>,
)
    requires
        pair_json(a, b) == pair_json(c, d),
    ensures
        a == c,
        b == d,
{
    encode_utf8_decode_utf8(pair_text(a, b));
    encode_utf8_decode_utf8(pair_text(c, d));
    let between = seq!['"', ',', '"'];
    let end = seq!['"', ']'];
    let left = between + (escaped(b) + end);
    let right = between + (escaped(d) + end);
    assert(pair_text(a, b).skip(2) =~= escaped(a) + left);
    assert(pair_text(c, d).skip(2) =~= escaped(c) + right);
    lemma_escaped(a, c, left, right);
    assert(left.skip(3) =~= escaped(b) + end);
    assert(right.skip(3) =~= escaped(d) + end);
    lemma_escaped(b, d, end, end);
}

} // verus!
