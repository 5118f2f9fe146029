//! The order of strings by code point is the order of their UTF-8 bytes:
//! what lets a sorted run of terms feed a byte-ordered key set directly.

use vstd::prelude::*;

use crate::postings::bytes_lt;
use crate::text::lex_lt;
use vstd::utf8::{
    encode_scalar, encode_utf8, last_continuation_byte, leading_byte_width_1, leading_byte_width_2,
    leading_byte_width_3, leading_byte_width_4, second_last_continuation_byte, third_last_continuation_byte,
};

verus! {

/// `x` and `y` agree before `i` and `x` is below `y` at `i`, where both
/// still have bytes.
pub open spec fn below_at(x: Seq<u8>, y: Seq<u8>, i: int) -> bool {
    &&& 0 <= i < x.len()
    &&& i < y.len()
    &&& x.subrange(0, i) == y.subrange(0, i)
    &&& x[i] < y[i]
}

proof fn lemma_below_at_extends(x: Seq<u8>, y: Seq<u8>, i: int, a: Seq<u8>, b: Seq<u8>)
    requires
        below_at(x, y, i),
    ensures
        bytes_lt(x + a, y + b),
    decreases i,
{
    assert((x + a)[0] == x[0]);
    assert((y + b)[0] == y[0]);
    if i > 0 {
        assert(x.subrange(0, i)[0] == x[0]);
        assert(y.subrange(0, i)[0] == y[0]);
        assert((x + a).drop_first() =~= x.drop_first() + a);
        assert((y + b).drop_first() =~= y.drop_first() + b);
        assert(x.drop_first().subrange(0, i - 1) =~= x.subrange(0, i).drop_first());
        assert(y.drop_first().subrange(0, i - 1) =~= y.subrange(0, i).drop_first());
        lemma_below_at_extends(x.drop_first(), y.drop_first(), i - 1, a, b);
    }
}

proof fn lemma_bytes_lt_after_common(p: Seq<u8>, a: Seq<u8>, b: Seq<u8>)
    requires
        bytes_lt(a, b),
    ensures
        bytes_lt(p + a, p + b),
    decreases p.len(),
{
    if p.len() == 0 {
        assert(p + a =~= a);
        assert(p + b =~= b);
    } else {
        assert((p + a)[0] == p[0]);
        assert((p + b)[0] == p[0]);
        assert((p + a).drop_first() =~= p.drop_first() + a);
        assert((p + b).drop_first() =~= p.drop_first() + b);
        lemma_bytes_lt_after_common(p.drop_first(), a, b);
    }
}

proof fn lemma_width_1_order(x: u32, y: u32)
    by (bit_vector)
    requires
        x < y <= 0x7F,
    ensures
        leading_byte_width_1(x) < leading_byte_width_1(y),
{
}

proof fn lemma_width_2_order(x: u32, y: u32)
    by (bit_vector)
    requires
        0x80 <= x < y <= 0x7FF,
    ensures
        leading_byte_width_2(x) < leading_byte_width_2(y) || (leading_byte_width_2(x) == leading_byte_width_2(y)
            && last_continuation_byte(x) < last_continuation_byte(y)),
{
}

proof fn lemma_width_3_order(x: u32, y: u32)
    by (bit_vector)
    requires
        0x800 <= x < y <= 0xFFFF,
    ensures
        leading_byte_width_3(x) < leading_byte_width_3(y) || (leading_byte_width_3(x) == leading_byte_width_3(y)
            && second_last_continuation_byte(x) < second_last_continuation_byte(y)) || (leading_byte_width_3(x)
            == leading_byte_width_3(y) && second_last_continuation_byte(x) == second_last_continuation_byte(y)
            && last_continuation_byte(x) < last_continuation_byte(y)),
{
}

proof fn lemma_width_4_order(x: u32, y: u32)
    by (bit_vector)
    requires
        0x10000 <= x < y <= 0x10FFFF,
    ensures
        leading_byte_width_4(x) < leading_byte_width_4(y) || (leading_byte_width_4(x) == leading_byte_width_4(y)
            && third_last_continuation_byte(x) < third_last_continuation_byte(y)) || (leading_byte_width_4(x)
            == leading_byte_width_4(y) && third_last_continuation_byte(x) == third_last_continuation_byte(y)
            && second_last_continuation_byte(x) < second_last_continuation_byte(y)) || (leading_byte_width_4(x)
            == leading_byte_width_4(y) && third_last_continuation_byte(x) == third_last_continuation_byte(y)
            && second_last_continuation_byte(x) == second_last_continuation_byte(y) && last_continuation_byte(x)
            < last_continuation_byte(y)),
{
}

proof fn lemma_leading_byte_ranges(x: u32)
    by (bit_vector)
    ensures
        x <= 0x7F ==> leading_byte_width_1(x) < 0x80,
        0x80 <= x <= 0x7FF ==> 0xC0 <= leading_byte_width_2(x) <= 0xDF,
        0x800 <= x <= 0xFFFF ==> 0xE0 <= leading_byte_width_3(x) <= 0xEF,
        0x10000 <= x <= 0x10FFFF ==> 0xF0 <= leading_byte_width_4(x) <= 0xF7,
{
}

/// How many bytes the encoding of a scalar takes.
spec fn width(x: u32) -> int {
    if x <= 0x7F {
        1
    } else if x <= 0x7FF {
        2
    } else if x <= 0xFFFF {
        3
    } else {
        4
    }
}

proof fn lemma_scalar_below(c1: char, c2: char) -> (i: int)
    requires
        (c1 as u32) < (c2 as u32),
    ensures
        below_at(encode_scalar(c1 as u32), encode_scalar(c2 as u32), i),
{
    let x = c1 as u32;
    let y = c2 as u32;
    let ex = encode_scalar(x);
    let ey = encode_scalar(y);
    lemma_leading_byte_ranges(x);
    lemma_leading_byte_ranges(y);
    if width(x) < width(y) {
        assert(ex.subrange(0, 0) =~= ey.subrange(0, 0));
        assert(below_at(ex, ey, 0));
        0
    } else if width(x) == 1 {
        lemma_width_1_order(x, y);
        assert(ex.subrange(0, 0) =~= ey.subrange(0, 0));
        assert(below_at(ex, ey, 0));
        0
    } else if width(x) == 2 {
        lemma_width_2_order(x, y);
        if leading_byte_width_2(x) < leading_byte_width_2(y) {
            assert(ex.subrange(0, 0) =~= ey.subrange(0, 0));
            assert(below_at(ex, ey, 0));
            0
        } else {
            assert(ex.subrange(0, 1) =~= ey.subrange(0, 1));
            assert(below_at(ex, ey, 1));
            1
        }
    } else if width(x) == 3 {
        lemma_width_3_order(x, y);
        if leading_byte_width_3(x) < leading_byte_width_3(y) {
            assert(ex.subrange(0, 0) =~= ey.subrange(0, 0));
            assert(below_at(ex, ey, 0));
            0
        } else if second_last_continuation_byte(x) < second_last_continuation_byte(y) {
            assert(ex.subrange(0, 1) =~= ey.subrange(0, 1));
            assert(below_at(ex, ey, 1));
            1
        } else {
            assert(ex.subrange(0, 2) =~= ey.subrange(0, 2));
            assert(below_at(ex, ey, 2));
            2
        }
    } else {
        lemma_width_4_order(x, y);
        if leading_byte_width_4(x) < leading_byte_width_4(y) {
            assert(ex.subrange(0, 0) =~= ey.subrange(0, 0));
            assert(below_at(ex, ey, 0));
            0
        } else if third_last_continuation_byte(x) < third_last_continuation_byte(y) {
            assert(ex.subrange(0, 1) =~= ey.subrange(0, 1));
            assert(below_at(ex, ey, 1));
            1
        } else if second_last_continuation_byte(x) < second_last_continuation_byte(y) {
            assert(ex.subrange(0, 2) =~= ey.subrange(0, 2));
            assert(below_at(ex, ey, 2));
            2
        } else {
            assert(ex.subrange(0, 3) =~= ey.subrange(0, 3));
            assert(below_at(ex, ey, 3));
            3
        }
    }
}

/// Strings in code-point order have their UTF-8 encodings in byte order.
pub proof fn lemma_utf8_order(a: Seq<char>, b: Seq<char>)
    requires
        lex_lt(a, b),
    ensures
        bytes_lt(encode_utf8(a), encode_utf8(b)),
    decreases a.len(),
{
    if a.len() == 0 {
        assert(encode_utf8(b) == encode_scalar(b[0] as u32) + encode_utf8(b.drop_first()));
        assert(encode_utf8(a) =~= Seq::<u8>::empty());
    } else {
        let ea = encode_scalar(a[0] as u32);
        let eb = encode_scalar(b[0] as u32);
        assert(encode_utf8(a) == ea + encode_utf8(a.drop_first()));
        assert(encode_utf8(b) == eb + encode_utf8(b.drop_first()));
        if (a[0] as u32) < (b[0] as u32) {
            let i = lemma_scalar_below(a[0], b[0]);
            lemma_below_at_extends(ea, eb, i, encode_utf8(a.drop_first()), encode_utf8(b.drop_first()));
        } else {
            assert(a[0] == b[0]);
            lemma_utf8_order(a.drop_first(), b.drop_first());
            lemma_bytes_lt_after_common(ea, encode_utf8(a.drop_first()), encode_utf8(b.drop_first()));
        }
    }
}

} // verus!
