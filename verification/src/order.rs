//! The order in which names are kept and written out.
//!
//! Names are compared as Rust compares strings: byte by byte over their
//! UTF-8 encoding, a proper prefix coming before any of its extensions.
//! This is the lexicographic order by character code as well; the module
//! `codepoint` proves it.

use vstd::prelude::*;
use vstd::utf8::*;

verus! {

/// What a comparison of two names found.
#[derive(Clone, Copy, Debug, PartialEq, Eq, Structural)]
pub enum Rank {
    /// The first name comes before the second.
    Before,
    /// The two names are the same.
    Same,
    /// The first name comes after the second.
    After,
}

/// `a` and `b` agree on their first `k` bytes, and at position `k` either `a`
/// has ended while `b` goes on, or `a` holds the smaller byte.
pub open spec fn diverges_below(a: Seq<u8>, b: Seq<u8>, k: int) -> bool {
    &&& 0 <= k <= a.len()
    &&& k <= b.len()
    &&& forall|i: int| 0 <= i < k ==> a[i] == b[i]
    &&& if k == a.len() {
        k < b.len()
    } else {
        k < b.len() && a[k] < b[k]
    }
}

/// Lexicographic order on byte sequences.
pub open spec fn bytes_lt(a: Seq<u8>, b: Seq<u8>) -> bool {
    exists|k: int| diverges_below(a, b, k)
}

/// The order on names: lexicographic over the UTF-8 encoding.
pub open spec fn name_lt(a: Seq<char>, b: Seq<char>) -> bool {
    bytes_lt(encode_utf8(a), encode_utf8(b))
}

/// Of two byte sequences that differ, exactly one comes before the other.
pub proof fn lemma_bytes_lt_total(a: Seq<u8>, b: Seq<u8>)
    ensures
        bytes_lt(a, b) || bytes_lt(b, a) || a == b,
        !(bytes_lt(a, b) && bytes_lt(b, a)),
        !(bytes_lt(a, b) && a == b),
{
    if bytes_lt(a, b) && bytes_lt(b, a) {
        let k: int = choose|k: int| diverges_below(a, b, k);
        let m: int = choose|m: int| diverges_below(b, a, m);
        if k < m {
            assert(b[k] == a[k]);
        } else if m < k {
            assert(a[m] == b[m]);
        }
    }
    if a != b {
        lemma_first_difference(a, b, 0);
    }
}

/// Two sequences that agree below `from` and differ somewhere are ordered.
proof fn lemma_first_difference(a: Seq<u8>, b: Seq<u8>, from: int)
    requires
        0 <= from <= a.len(),
        from <= b.len(),
        forall|i: int| 0 <= i < from ==> a[i] == b[i],
        a != b,
    ensures
        bytes_lt(a, b) || bytes_lt(b, a),
    decreases a.len() - from,
{
    if from == a.len() {
        if from == b.len() {
            assert(a =~= b);
        } else {
            assert(diverges_below(a, b, from));
        }
    } else if from == b.len() {
        assert(diverges_below(b, a, from));
    } else if a[from] < b[from] {
        assert(diverges_below(a, b, from));
    } else if b[from] < a[from] {
        assert(diverges_below(b, a, from));
    } else {
        lemma_first_difference(a, b, from + 1);
    }
}

/// The order on byte sequences is transitive.
pub proof fn lemma_bytes_lt_transitive(a: Seq<u8>, b: Seq<u8>, c: Seq<u8>)
    requires
        bytes_lt(a, b),
        bytes_lt(b, c),
    ensures
        bytes_lt(a, c),
{
    let k: int = choose|k: int| diverges_below(a, b, k);
    let m: int = choose|m: int| diverges_below(b, c, m);
    if k <= m {
        assert(diverges_below(a, c, k));
    } else {
        assert(diverges_below(a, c, m));
    }
}

/// Names are strictly and totally ordered by `name_lt`.
pub proof fn lemma_name_lt_total(a: Seq<char>, b: Seq<char>)
    ensures
        name_lt(a, b) || name_lt(b, a) || a == b,
        !(name_lt(a, b) && name_lt(b, a)),
        !(name_lt(a, b) && a == b),
{
    lemma_bytes_lt_total(encode_utf8(a), encode_utf8(b));
    if encode_utf8(a) == encode_utf8(b) {
        encode_utf8_decode_utf8(a);
        encode_utf8_decode_utf8(b);
    }
}

/// The order on names is transitive.
pub proof fn lemma_name_lt_transitive(a: Seq<char>, b: Seq<char>, c: Seq<char>)
    requires
        name_lt(a, b),
        name_lt(b, c),
    ensures
        name_lt(a, c),
{
    lemma_bytes_lt_transitive(encode_utf8(a), encode_utf8(b), encode_utf8(c));
}

/// Compares two names.
pub fn rank(a: &str, b: &str) -> (r: Rank)
    ensures
        r == Rank::Before <==> name_lt(a@, b@),
        r == Rank::Same <==> a@ == b@,
        r == Rank::After <==> name_lt(b@, a@),
{
    let x = a.as_bytes();
    let y = b.as_bytes();
    proof {
        lemma_name_lt_total(a@, b@);
    }
    let mut i: usize = 0;
    while i < x.len() && i < y.len()
        invariant
            i <= x.len(),
            i <= y.len(),
            x@ == encode_utf8(a@),
            y@ == encode_utf8(b@),
            forall|j: int| 0 <= j < i ==> x@[j] == y@[j],
        decreases x.len() - i,
    {
        if x[i] < y[i] {
            assert(diverges_below(x@, y@, i as int));
            return Rank::Before;
        }
        if y[i] < x[i] {
            assert(diverges_below(y@, x@, i as int));
            return Rank::After;
        }
        i = i + 1;
    }
    if i < y.len() {
        assert(diverges_below(x@, y@, i as int));
        Rank::Before
    } else if i < x.len() {
        assert(diverges_below(y@, x@, i as int));
        Rank::After
    } else {
        assert(x@ =~= y@);
        proof {
            encode_utf8_decode_utf8(a@);
            encode_utf8_decode_utf8(b@);
        }
        Rank::Same
    }
}

} // verus!
