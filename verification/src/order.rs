//! Strict total orders, and their extension from elements to sequences.
use vstd::prelude::*;

verus! {

/// How one key stands to another.
#[derive(Clone, Copy, Debug, PartialEq, Eq, Structural)]
pub enum Rank {
    Before,
    Same,
    After,
}

/// `lt` is irreflexive, transitive, and decides between any two different values.
pub open spec fn strict_total<T>(lt: spec_fn(T, T) -> bool) -> bool {
    &&& forall|a: T| !#[trigger] lt(a, a)
    &&& forall|a: T, b: T, c: T| #[trigger] lt(a, b) && #[trigger] lt(b, c) ==> lt(a, c)
    &&& forall|a: T, b: T| a == b || #[trigger] lt(a, b) || lt(b, a)
}

/// `a` and `b` agree before position `k`, where `a` ends or holds the smaller element.
pub open spec fn lex_at<T>(lt: spec_fn(T, T) -> bool, a: Seq<T>, b: Seq<T>, k: int) -> bool {
    &&& 0 <= k <= a.len()
    &&& k < b.len()
    &&& forall|i: int| 0 <= i < k ==> a[i] == b[i]
    &&& k == a.len() || lt(a[k], b[k])
}

/// Lexicographic order: a proper prefix comes before what it begins.
pub open spec fn lex<T>(lt: spec_fn(T, T) -> bool, a: Seq<T>, b: Seq<T>) -> bool {
    exists|k: int| lex_at(lt, a, b, k)
}

proof fn lemma_first_difference<T>(lt: spec_fn(T, T) -> bool, a: Seq<T>, b: Seq<T>, k: int)
    requires
        strict_total(lt),
        0 <= k <= a.len(),
        k <= b.len(),
        forall|i: int| 0 <= i < k ==> a[i] == b[i],
    ensures
        a == b || lex(lt, a, b) || lex(lt, b, a),
    decreases a.len() - k,
{
    if k == a.len() && k == b.len() {
        assert(a =~= b);
    } else if k == a.len() {
        assert(lex_at(lt, a, b, k));
    } else if k == b.len() {
        assert(lex_at(lt, b, a, k));
    } else if a[k] == b[k] {
        lemma_first_difference(lt, a, b, k + 1);
    } else if lt(a[k], b[k]) {
        assert(lex_at(lt, a, b, k));
    } else {
        assert(lt(b[k], a[k]));
        assert(lex_at(lt, b, a, k));
    }
}

/// The lexicographic extension of a strict total order is one itself.
pub proof fn lemma_lex_strict_total<T>(lt: spec_fn(T, T) -> bool)
    requires
        strict_total(lt),
    ensures
        strict_total(|a: Seq<T>, b: Seq<T>| lex(lt, a, b)),
{
    let on_seqs = |a: Seq<T>, b: Seq<T>| lex(lt, a, b);
    assert forall|a: Seq<T>| !#[trigger] on_seqs(a, a) by {
        if lex(lt, a, a) {
            let k = choose|k: int| lex_at(lt, a, a, k);
            assert(lt(a[k], a[k]));
        }
    }
    assert forall|a: Seq<T>, b: Seq<T>, c: Seq<T>| #[trigger]
        on_seqs(a, b) && #[trigger] on_seqs(b, c) implies on_seqs(a, c) by {
        let i = choose|k: int| lex_at(lt, a, b, k);
        let j = choose|k: int| lex_at(lt, b, c, k);
        let k = if i <= j { i } else { j };
        assert(lex_at(lt, a, c, k));
    }
    assert forall|a: Seq<T>, b: Seq<T>| a == b || #[trigger] on_seqs(a, b) || on_seqs(b, a) by {
        lemma_first_difference(lt, a, b, 0);
    }
}

/// A type whose values are told apart and ordered by their views.
pub trait OrderedKey: View + Sized {
    spec fn before(a: Self::V, b: Self::V) -> bool;

    proof fn lemma_strict_total()
        ensures
            strict_total(|a: Self::V, b: Self::V| Self::before(a, b)),
    ;

    fn rank(&self, other: &Self) -> (r: Rank)
        ensures
            r == Rank::Before <==> Self::before(self@, other@),
            r == Rank::Same <==> self@ == other@,
            r == Rank::After <==> Self::before(other@, self@),
    ;
}

impl OrderedKey for usize {
    open spec fn before(a: usize, b: usize) -> bool {
        a < b
    }

    proof fn lemma_strict_total() {
    }

    fn rank(&self, other: &Self) -> (r: Rank) {
        if *self < *other {
            Rank::Before
        } else if *self == *other {
            Rank::Same
        } else {
            Rank::After
        }
    }
}

/// Bytes in their numeric order.
pub open spec fn byte_lt(a: u8, b: u8) -> bool {
    a < b
}

/// The order of texts: byte by byte in UTF-8, as the standard library compares strings.
pub open spec fn text_before(a: Seq<char>, b: Seq<char>) -> bool {
    lex(
        |x: u8, y: u8| byte_lt(x, y),
        vstd::utf8::encode_utf8(a),
        vstd::utf8::encode_utf8(b),
    )
}

pub proof fn lemma_text_strict_total()
    ensures
        strict_total(|a: Seq<char>, b: Seq<char>| text_before(a, b)),
{
    broadcast use vstd::utf8::encode_utf8_decode_utf8;

    let lt = |x: u8, y: u8| byte_lt(x, y);
    lemma_lex_strict_total(lt);
    let on_bytes = |a: Seq<u8>, b: Seq<u8>| lex(lt, a, b);
    let on_texts = |a: Seq<char>, b: Seq<char>| text_before(a, b);
    assert forall|a: Seq<char>| !#[trigger] on_texts(a, a) by {
        let x = vstd::utf8::encode_utf8(a);
        assert(!on_bytes(x, x));
    }
    assert forall|a: Seq<char>, b: Seq<char>, c: Seq<char>| #[trigger]
        on_texts(a, b) && #[trigger] on_texts(b, c) implies on_texts(a, c) by {
        let x = vstd::utf8::encode_utf8(a);
        let y = vstd::utf8::encode_utf8(b);
        let z = vstd::utf8::encode_utf8(c);
        assert(on_bytes(x, y) && on_bytes(y, z));
    }
    assert forall|a: Seq<char>, b: Seq<char>|
        a == b || #[trigger] on_texts(a, b) || on_texts(b, a) by {
        let x = vstd::utf8::encode_utf8(a);
        let y = vstd::utf8::encode_utf8(b);
        assert(x == y || on_bytes(x, y) || on_bytes(y, x));
        assert(vstd::utf8::decode_utf8(x) == a);
        assert(vstd::utf8::decode_utf8(y) == b);
    }
}

impl OrderedKey for String {
    open spec fn before(a: Seq<char>, b: Seq<char>) -> bool {
        text_before(a, b)
    }

    proof fn lemma_strict_total() {
        lemma_text_strict_total();
        assert((|a: Seq<char>, b: Seq<char>| <String as OrderedKey>::before(a, b)) =~= (|
            a: Seq<char>,
            b: Seq<char>,
        | text_before(a, b)));
    }

    fn rank(&self, other: &Self) -> (r: Rank) {
        broadcast use vstd::utf8::encode_utf8_decode_utf8;

        let a: &[u8] = self.as_str().as_bytes();
        let b: &[u8] = other.as_str().as_bytes();
        let ghost lt = |x: u8, y: u8| byte_lt(x, y);
        proof {
            lemma_text_strict_total();
            let on_texts = |a: Seq<char>, b: Seq<char>| text_before(a, b);
            assert(!on_texts(self@, self@));
            assert(on_texts(self@, other@) && on_texts(other@, self@) ==> on_texts(self@, self@));
            assert(vstd::utf8::decode_utf8(a@) == self@);
            assert(vstd::utf8::decode_utf8(b@) == other@);
        }
        let mut i: usize = 0;
        while i < a.len() && i < b.len() && a[i] == b[i]
            invariant
                i <= a@.len(),
                i <= b@.len(),
                forall|j: int| 0 <= j < i ==> a@[j] == b@[j],
            decreases a@.len() - i,
        {
            i = i + 1;
        }
        if i == a.len() && i == b.len() {
            assert(a@ =~= b@);
            Rank::Same
        } else if i == a.len() {
            assert(lex_at(lt, a@, b@, i as int));
            Rank::Before
        } else if i == b.len() {
            assert(lex_at(lt, b@, a@, i as int));
            Rank::After
        } else if a[i] < b[i] {
            assert(lex_at(lt, a@, b@, i as int));
            Rank::Before
        } else {
            assert(lex_at(lt, b@, a@, i as int));
            Rank::After
        }
    }
}

} // verus!
