//! The order on names, seen character by character: UTF-8 keeps the order of
//! character codes, so names ordered by their bytes are ordered by their
//! characters.

use crate::order::{diverges_below, lemma_bytes_lt_total, name_lt};
use vstd::prelude::*;
use vstd::utf8::*;

verus! {

/// `a` and `b` agree on their first `k` characters, and at position `k`
/// either `a` has ended while `b` goes on, or `a` holds the character with
/// the smaller code.
pub open spec fn parts_below(a: Seq<char>, b: Seq<char>, k: int) -> bool {
    &&& 0 <= k <= a.len()
    &&& k <= b.len()
    &&& forall|i: int| 0 <= i < k ==> a[i] == b[i]
    &&& if k == a.len() {
        k < b.len()
    } else {
        k < b.len() && (a[k] as u32) < (b[k] as u32)
    }
}

/// Lexicographic order on names by character code.
pub open spec fn chars_lt(a: Seq<char>, b: Seq<char>) -> bool {
    exists|k: int| parts_below(a, b, k)
}

/// Two byte sequences part ways at `k`, inside both, the first with the
/// smaller byte.
spec fn splits_at(p: Seq<u8>, q: Seq<u8>, k: int) -> bool {
    &&& 0 <= k < p.len()
    &&& k < q.len()
    &&& forall|i: int| 0 <= i < k ==> p[i] == q[i]
    &&& p[k] < q[k]
}

/// The first byte of an encoding tells its width: the wider, the larger.
proof fn lemma_leading_bytes(x: u32)
    by (bit_vector)
    ensures
        leading_byte_width_1(x) <= 0x7f,
        0xc0 <= leading_byte_width_2(x) <= 0xdf,
        0xe0 <= leading_byte_width_3(x) <= 0xef,
        0xf0 <= leading_byte_width_4(x) <= 0xf7,
{
}

/// Of two scalars encoded in one byte, the smaller has the smaller byte.
proof fn lemma_order_width_1(x: u32, y: u32)
    by (bit_vector)
    requires
        x < y,
        y <= 0x7f,
    ensures
        leading_byte_width_1(x) < leading_byte_width_1(y),
{
}

/// Of two scalars encoded in two bytes, the smaller has the smaller byte
/// where the two encodings first differ.
proof fn lemma_order_width_2(x: u32, y: u32)
    by (bit_vector)
    requires
        x < y,
        y <= 0x7ff,
    ensures
        ({
            ||| leading_byte_width_2(x) < leading_byte_width_2(y)
            ||| {
                &&& leading_byte_width_2(x) == leading_byte_width_2(y)
                &&& last_continuation_byte(x) < last_continuation_byte(y)
            }
        }),
{
}

/// Of two scalars encoded in three bytes, the smaller has the smaller byte
/// where the two encodings first differ.
proof fn lemma_order_width_3(x: u32, y: u32)
    by (bit_vector)
    requires
        x < y,
        y <= 0xffff,
    ensures
        ({
            ||| leading_byte_width_3(x) < leading_byte_width_3(y)
            ||| {
                &&& leading_byte_width_3(x) == leading_byte_width_3(y)
                &&& second_last_continuation_byte(x) < second_last_continuation_byte(y)
            }
            ||| {
                &&& leading_byte_width_3(x) == leading_byte_width_3(y)
                &&& second_last_continuation_byte(x) == second_last_continuation_byte(y)
                &&& last_continuation_byte(x) < last_continuation_byte(y)
            }
        }),
{
}

/// Of two scalars encoded in four bytes, the smaller has the smaller byte
/// where the two encodings first differ.
proof fn lemma_order_width_4(x: u32, y: u32)
    by (bit_vector)
    requires
        x < y,
        y <= 0x10ffff,
    ensures
        ({
            ||| leading_byte_width_4(x) < leading_byte_width_4(y)
            ||| {
                &&& leading_byte_width_4(x) == leading_byte_width_4(y)
                &&& third_last_continuation_byte(x) < third_last_continuation_byte(y)
            }
            ||| {
                &&& leading_byte_width_4(x) == leading_byte_width_4(y)
                &&& third_last_continuation_byte(x) == third_last_continuation_byte(y)
                &&& second_last_continuation_byte(x) < second_last_continuation_byte(y)
            }
            ||| {
                &&& leading_byte_width_4(x) == leading_byte_width_4(y)
                &&& third_last_continuation_byte(x) == third_last_continuation_byte(y)
                &&& second_last_continuation_byte(x) == second_last_continuation_byte(y)
                &&& last_continuation_byte(x) < last_continuation_byte(y)
            }
        }),
{
}

/// The encoding of the smaller of two scalars parts ways with that of the
/// larger at a byte that is smaller.
proof fn lemma_scalar_order(x: u32, y: u32) -> (k: int)
    requires
        is_scalar(x),
        is_scalar(y),
        x < y,
    ensures
        splits_at(encode_scalar(x), encode_scalar(y), k),
{
    let p = encode_scalar(x);
    let q = encode_scalar(y);
    lemma_leading_bytes(x);
    lemma_leading_bytes(y);
    if has_width_1_encoding(y) {
        lemma_order_width_1(x, y);
        0
    } else if has_width_2_encoding(y) {
        if has_width_2_encoding(x) {
            lemma_order_width_2(x, y);
            if p[0] < q[0] {
                0
            } else {
                1
            }
        } else {
            0
        }
    } else if has_width_3_encoding(y) {
        if has_width_3_encoding(x) {
            lemma_order_width_3(x, y);
            if p[0] < q[0] {
                0
            } else if p[1] < q[1] {
                1
            } else {
                2
            }
        } else {
            0
        }
    } else {
        if has_width_4_encoding(x) {
            lemma_order_width_4(x, y);
            if p[0] < q[0] {
                0
            } else if p[1] < q[1] {
                1
            } else if p[2] < q[2] {
                2
            } else {
                3
            }
        } else {
            0
        }
    }
}

/// Names ordered by their characters are ordered by their bytes.
proof fn lemma_chars_lt_bytes_lt(a: Seq<char>, b: Seq<char>, k: int)
    requires
        parts_below(a, b, k),
    ensures
        name_lt(a, b),
    decreases k,
{
    let x = encode_utf8(a);
    let y = encode_utf8(b);
    if k == 0 {
        if a.len() == 0 {
            char_is_scalar(b[0]);
            assert(encode_scalar(b[0] as u32).len() > 0);
            assert(diverges_below(x, y, 0));
        } else {
            char_is_scalar(a[0]);
            char_is_scalar(b[0]);
            let m = lemma_scalar_order(a[0] as u32, b[0] as u32);
            assert(diverges_below(x, y, m));
        }
    } else {
        let ta = a.drop_first();
        let tb = b.drop_first();
        assert(parts_below(ta, tb, k - 1)) by {
            assert forall|i: int| 0 <= i < k - 1 implies ta[i] == tb[i] by {
                assert(a[i + 1] == b[i + 1]);
            }
        }
        lemma_chars_lt_bytes_lt(ta, tb, k - 1);
        let m = choose|m: int| diverges_below(encode_utf8(ta), encode_utf8(tb), m);
        let head = encode_scalar(a[0] as u32);
        assert(a[0] == b[0]);
        assert(diverges_below(x, y, head.len() + m));
    }
}

/// Two names that agree below `from` and differ are ordered by their
/// characters, one way or the other.
proof fn lemma_chars_first_difference(a: Seq<char>, b: Seq<char>, from: int)
    requires
        0 <= from <= a.len(),
        from <= b.len(),
        forall|i: int| 0 <= i < from ==> a[i] == b[i],
        a != b,
    ensures
        chars_lt(a, b) || chars_lt(b, a),
    decreases a.len() - from,
{
    if from == a.len() {
        if from == b.len() {
            assert(a =~= b);
        } else {
            assert(parts_below(a, b, from));
        }
    } else if from == b.len() {
        assert(parts_below(b, a, from));
    } else if (a[from] as u32) < (b[from] as u32) {
        assert(parts_below(a, b, from));
    } else if (b[from] as u32) < (a[from] as u32) {
        assert(parts_below(b, a, from));
    } else {
        char_u32_cast(a[from], a[from] as u32);
        char_u32_cast(b[from], b[from] as u32);
        lemma_chars_first_difference(a, b, from + 1);
    }
}

/// The order on names is the lexicographic order by character code.
pub proof fn lemma_name_lt_by_characters(a: Seq<char>, b: Seq<char>)
    ensures
        name_lt(a, b) <==> chars_lt(a, b),
{
    if chars_lt(a, b) {
        let k = choose|k: int| parts_below(a, b, k);
        lemma_chars_lt_bytes_lt(a, b, k);
    }
    if name_lt(a, b) && !chars_lt(a, b) {
        lemma_bytes_lt_total(encode_utf8(a), encode_utf8(b));
        if a != b {
            lemma_chars_first_difference(a, b, 0);
            let k = choose|k: int| parts_below(b, a, k);
            lemma_chars_lt_bytes_lt(b, a, k);
        }
    }
}

} // verus!
