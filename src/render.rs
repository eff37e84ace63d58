//! Rendering numbers into twelve-byte ASCII buffers.
//!
//! Two layouts exist side by side and are kept apart on purpose:
//! - the unsigned renderer anchors its digits at index 1, with one blank cell
//!   before them and blanks after them;
//! - the signed and fixed-point renderers right-justify their text against the
//!   end of the buffer.

use crate::digits::{
    decimal_digits, digit_count, is_digit, lemma_decimal_digits, lemma_digit_at,
    lemma_digit_count_bounds, lemma_digit_count_le, lemma_div_pow10_step, num_length, pow10,
    ASCII_ZERO,
};
use vstd::prelude::*;

verus! {

/// Number of bytes in every rendered buffer.
pub const BUFFER_LENGTH: usize = 12;

/// Index of the last byte of a buffer.
pub const BUFFER_LAST_IDX: usize = 11;

/// ASCII space, the filler of unused cells.
pub const ASCII_SPACE: u8 = 32;

/// ASCII `'-'`.
pub const ASCII_MINUS: u8 = 45;

/// ASCII `'.'`.
pub const ASCII_DOT: u8 = 46;

/// A fixed-capacity ASCII buffer, owned by value.
pub type Buffer = [u8; 12];

/// `k` spaces.
pub open spec fn spaces(k: nat) -> Seq<u8> {
    Seq::new(k, |_i: int| ASCII_SPACE)
}

/// `k` ASCII zeros.
pub open spec fn zeros(k: nat) -> Seq<u8> {
    Seq::new(k, |_i: int| ASCII_ZERO)
}

/// The buffer of the unsigned renderer: one blank, the digits, then blanks.
pub open spec fn unsigned_layout(n: nat) -> Seq<u8> {
    seq![ASCII_SPACE] + decimal_digits(n) + spaces((11 - digit_count(n)) as nat)
}

/// Renders `num` with its most significant digit at index 1: the digits fill
/// indices `1..=len`, every other cell is a space. Not right-justified.
pub fn u32_to_str(num: u32) -> (r: (usize, Buffer))
    ensures
        r.0 == digit_count(num as nat),
        1 <= r.0 <= 10,
        r.1@ == unsigned_layout(num as nat),
{
    let lng = num_length(num);
    let mut value = num;
    let ghost m = num as nat;
    let mut buf: Buffer = [ASCII_SPACE; 12];
    proof {
        lemma_decimal_digits(m);
        assert(pow10(0) == 1);
    }
    let mut i: usize = 0;
    while i < lng
        invariant
            lng == digit_count(m),
            1 <= lng <= 10,
            i <= lng,
            decimal_digits(m).len() == lng,
            value as nat == m / pow10(i as nat),
            buf@.len() == 12,
            forall|j: int| 0 <= j <= lng - i ==> buf@[j] == ASCII_SPACE,
            forall|j: int| lng < j < 12 ==> buf@[j] == ASCII_SPACE,
            forall|j: int| lng - i < j <= lng ==> buf@[j] == decimal_digits(m)[j - 1],
        decreases lng - i,
    {
        let dig = value % 10;
        proof {
            lemma_digit_at(m, i as nat);
            lemma_div_pow10_step(m, i as nat);
        }
        value = value / 10;
        buf[lng - i] = ASCII_ZERO + dig as u8;
        i = i + 1;
    }
    assert(buf@ =~= unsigned_layout(m));
    (lng, buf)
}

/// The magnitude of `v`, without overflow at `i16::MIN`.
pub open spec fn magnitude(v: i16) -> nat {
    if v < 0 {
        (-(v as int)) as nat
    } else {
        v as nat
    }
}

/// `"-"` for a negative value, nothing otherwise.
pub open spec fn sign_text(v: i16) -> Seq<u8> {
    if v < 0 {
        seq![ASCII_MINUS]
    } else {
        seq![]
    }
}

/// The text of `v`: an optional minus sign, then the decimal digits of its magnitude.
pub open spec fn signed_text(v: i16) -> Seq<u8> {
    sign_text(v) + decimal_digits(magnitude(v))
}

/// `text` right-justified in a buffer of spaces.
pub open spec fn right_justified(text: Seq<u8>) -> Seq<u8> {
    spaces((12 - text.len()) as nat) + text
}

/// Bounds on the text of a 16-bit value.
pub proof fn lemma_signed_text_len(v: i16)
    ensures
        1 <= digit_count(magnitude(v)) <= 5,
        signed_text(v).len() == digit_count(magnitude(v)) + sign_text(v).len(),
        1 <= signed_text(v).len() <= 6,
{
    assert(pow10(5) == 100000) by {
        reveal_with_fuel(pow10, 6);
    }
    lemma_digit_count_le(magnitude(v), 5);
    lemma_digit_count_bounds(magnitude(v));
    lemma_decimal_digits(magnitude(v));
}

/// Renders `value` right-justified: the text (sign, then digits) fills the
/// last `len` bytes of the buffer, every other cell is a space.
pub fn i16_to_str(value: i16) -> (r: (usize, Buffer))
    ensures
        r.0 == signed_text(value).len(),
        1 <= r.0 <= 6,
        r.1@ == right_justified(signed_text(value)),
{
    let sign_length: usize = if value < 0 {
        1
    } else {
        0
    };
    let mag: u32 = if value < 0 {
        (0i32 - value as i32) as u32
    } else {
        value as u32
    };
    let ghost m = magnitude(value);
    proof {
        lemma_signed_text_len(value);
        lemma_decimal_digits(m);
        assert(pow10(0) == 1);
    }
    let n = num_length(mag);
    let lng: usize = if n < BUFFER_LAST_IDX {
        n
    } else {
        BUFFER_LAST_IDX
    };
    let mut buf: Buffer = [ASCII_SPACE; 12];
    if sign_length != 0 {
        buf[BUFFER_LAST_IDX - lng] = ASCII_MINUS;
    }
    let ghost head = spaces((12 - lng - sign_length) as nat) + sign_text(value);
    assert(buf@.subrange(0, 12 - lng as int) =~= head);
    let mut rest = mag;
    let mut i: usize = 0;
    while i < lng
        invariant
            lng == digit_count(m),
            1 <= lng <= 5,
            i <= lng,
            decimal_digits(m).len() == lng,
            head.len() == 12 - lng,
            rest as nat == m / pow10(i as nat),
            buf@.len() == 12,
            buf@.subrange(0, 12 - lng as int) == head,
            forall|j: int| 12 - i <= j < 12 ==> buf@[j] == decimal_digits(m)[j - (12 - lng)],
        decreases lng - i,
    {
        let dig = rest % 10;
        proof {
            lemma_digit_at(m, i as nat);
            lemma_div_pow10_step(m, i as nat);
        }
        rest = rest / 10;
        buf[BUFFER_LAST_IDX - i] = ASCII_ZERO + dig as u8;
        assert(buf@.subrange(0, 12 - lng as int) =~= head);
        i = i + 1;
    }
    assert(right_justified(signed_text(value)) =~= head + decimal_digits(m));
    assert forall|j: int| 0 <= j < 12 - lng implies buf@[j] == head[j] by {
        assert(buf@.subrange(0, 12 - lng as int)[j] == buf@[j]);
    }
    assert(buf@ =~= head + decimal_digits(m));
    (lng + sign_length, buf)
}

/// The text of `v`, where `dig > 0` and the text is no longer than `dig`
/// bytes, with `dig + 1 - len` zeros put immediately left of its digits
/// (after the sign of a negative value).
pub open spec fn padded_text(v: i16, dig: nat) -> Seq<u8> {
    let t = signed_text(v);
    if 0 < dig && t.len() <= dig {
        sign_text(v) + zeros((dig + 1 - t.len()) as nat) + decimal_digits(magnitude(v))
    } else {
        t
    }
}

/// The fixed-point text of the scaled value `v` with `dig` fractional digits:
/// the padded text with a point inserted `dig` bytes from its end.
pub open spec fn fixed_text(v: i16, dig: nat) -> Seq<u8> {
    let p = padded_text(v, dig);
    if dig == 0 {
        p
    } else {
        p.subrange(0, p.len() - dig) + seq![ASCII_DOT] + p.subrange(p.len() - dig, p.len() as int)
    }
}

/// The length that the fixed-point renderer reports: the length of the text
/// before padding, plus one for the point. It leaves out padding zeros.
pub open spec fn fixed_len(v: i16, dig: nat) -> nat {
    if dig == 0 {
        signed_text(v).len()
    } else {
        signed_text(v).len() + 1
    }
}

/// Puts the padding zeros of `padded_text` into a buffer that holds the
/// right-justified text of `scaled`, moving the sign of a negative value left.
fn pad_with_zeros(buffer: &mut Buffer, scaled: i16, len: usize, d: usize)
    requires
        old(buffer)@ == right_justified(signed_text(scaled)),
        len == signed_text(scaled).len(),
        1 <= len <= d <= 4,
    ensures
        final(buffer)@ == right_justified(padded_text(scaled, d as nat)),
{
    let negative = scaled < 0;
    let lng: usize = if negative {
        len - 1
    } else {
        len
    };
    let missing = d + 1 - len;
    let fill_start = BUFFER_LAST_IDX - lng;
    let ghost b0 = buffer@;
    let ghost m = magnitude(scaled);
    let ghost s = sign_text(scaled);
    proof {
        lemma_signed_text_len(scaled);
        lemma_decimal_digits(m);
        assert(b0 =~= spaces((12 - len) as nat) + s + decimal_digits(m));
    }
    let mut i: usize = 0;
    while i < missing
        invariant
            1 <= len <= d <= 4,
            lng == decimal_digits(m).len(),
            lng + s.len() == len,
            b0 == spaces((12 - len) as nat) + s + decimal_digits(m),
            missing == d + 1 - len,
            fill_start == 11 - lng,
            i <= missing,
            buffer@.len() == 12,
            forall|j: int| 0 <= j < 11 - lng - i ==> buffer@[j] == ASCII_SPACE,
            !negative ==> buffer@[11 - lng - i] == ASCII_SPACE,
            negative <==> s.len() == 1,
            forall|j: int| 12 - lng - i <= j < 12 - lng ==> buffer@[j] == ASCII_ZERO,
            forall|j: int| 12 - lng <= j < 12 ==> buffer@[j] == b0[j],
        decreases missing - i,
    {
        buffer[fill_start - i] = ASCII_ZERO;
        i = i + 1;
    }
    if negative {
        buffer[fill_start - missing] = ASCII_MINUS;
    }
    proof {
        let z = zeros(missing as nat);
        let want = right_justified(padded_text(scaled, d as nat));
        assert(want =~= spaces((11 - len - missing + 1) as nat) + s + z + decimal_digits(m));
        let start = 12 - lng - missing;
        assert(negative ==> s == seq![ASCII_MINUS]);
        assert(!negative ==> s.len() == 0);
        assert forall|j: int| 0 <= j < 12 implies buffer@[j] == want[j] by {
            if j >= 12 - lng {
                assert(b0[j] == decimal_digits(m)[j - (12 - lng)]);
                assert(want[j] == decimal_digits(m)[j - (12 - lng)]);
            } else if j >= start {
                assert(buffer@[j] == ASCII_ZERO);
                assert(want[j] == z[j - start]);
            } else if negative && j == start - 1 {
                assert(buffer@[j] == ASCII_MINUS);
                assert(want[j] == ASCII_MINUS);
            } else {
                assert(buffer@[j] == ASCII_SPACE);
                assert(want[j] == ASCII_SPACE);
            }
        }
        assert(buffer@ =~= want);
    }
}

/// Renders `scaled / 10^dig`, where `scaled` is the value already multiplied by
/// `10^dig` and truncated toward zero: the signed text, with `dig + 1 - len`
/// zeros put left of its digits when `dig > 0` and the text has only
/// `len <= dig` bytes, then a point before its last `dig` bytes,
/// right-justified. The length returned is that of the signed text plus one
/// for the point, so it does not count padding zeros.
pub fn fixed_to_str(scaled: i16, dig: u8) -> (r: (usize, Buffer))
    requires
        dig < 5,
    ensures
        r.0 == fixed_len(scaled, dig as nat),
        1 <= r.0 <= 7,
        r.1@ == right_justified(fixed_text(scaled, dig as nat)),
{
    let (len, mut buffer) = i16_to_str(scaled);
    if dig == 0 {
        return (len, buffer);
    }
    let d = dig as usize;
    if len <= d {
        pad_with_zeros(&mut buffer, scaled, len, d);
    }
    let ghost p = padded_text(scaled, d as nat);
    assert(buffer@ =~= right_justified(p));
    let dot_pos = BUFFER_LAST_IDX - d;
    let ghost b0 = buffer@;
    let mut i: usize = 1;
    while i <= dot_pos
        invariant
            dot_pos == 11 - d,
            1 <= i <= dot_pos + 1,
            buffer@.len() == 12,
            forall|j: int| 0 <= j < i - 1 ==> buffer@[j] == b0[j + 1],
            forall|j: int| i - 1 <= j < 12 ==> buffer@[j] == b0[j],
        decreases dot_pos + 1 - i,
    {
        buffer[i - 1] = buffer[i];
        i = i + 1;
    }
    buffer[dot_pos] = ASCII_DOT;
    proof {
        lemma_signed_text_len(scaled);
        let pl = p.len() as int;
        assert(d < pl <= 7);
        let f = fixed_text(scaled, d as nat);
        assert(f =~= p.subrange(0, pl - d) + seq![ASCII_DOT] + p.subrange(pl - d, pl));
        assert(f.len() == pl + 1);
        let want = right_justified(f);
        assert forall|j: int| 0 <= j < 12 implies buffer@[j] == want[j] by {
            if j < 11 - pl {
                assert(b0[j + 1] == ASCII_SPACE);
            } else if j < dot_pos {
                assert(b0[j + 1] == p[j + 1 - (12 - pl)]);
            } else if j > dot_pos {
                assert(b0[j] == p[j - (12 - pl)]);
            }
        }
        assert(buffer@ =~= want);
    }
    let out_len = if len + 1 < BUFFER_LENGTH {
        len + 1
    } else {
        BUFFER_LENGTH
    };
    (out_len, buffer)
}

/// The ASCII decimal digits of `s`, in order, with every other byte dropped.
pub open spec fn digits_of(s: Seq<u8>) -> Seq<u8> {
    s.filter(|c: u8| is_digit(c))
}

proof fn lemma_digits_of_all(s: Seq<u8>)
    requires
        forall|i: int| 0 <= i < s.len() ==> is_digit(#[trigger] s[i]),
    ensures
        digits_of(s) == s,
    decreases s.len(),
{
    reveal(Seq::filter);
    if s.len() > 0 {
        lemma_digits_of_all(s.drop_last());
        assert(s.drop_last().push(s.last()) =~= s);
    }
}

proof fn lemma_digits_of_none(s: Seq<u8>)
    requires
        forall|i: int| 0 <= i < s.len() ==> !is_digit(#[trigger] s[i]),
    ensures
        digits_of(s) =~= Seq::<u8>::empty(),
    decreases s.len(),
{
    reveal(Seq::filter);
    if s.len() > 0 {
        lemma_digits_of_none(s.drop_last());
    }
}

proof fn lemma_digits_of_add(a: Seq<u8>, b: Seq<u8>)
    ensures
        digits_of(a + b) == digits_of(a) + digits_of(b),
{
    Seq::filter_distributes_over_add(a, b, |c: u8| is_digit(c));
}

/// Read with sign, blanks and point dropped, a fixed-point rendering shows
/// exactly the decimal digits of the scaled integer, for every count of
/// fractional digits up to four, wherever no padding zero is added (the
/// text of the scaled value is longer than the count of fractional digits).
pub proof fn lemma_fixed_digits_round_trip(scaled: i16, dig: nat)
    requires
        dig <= 4,
        dig == 0 || signed_text(scaled).len() > dig,
    ensures
        digits_of(right_justified(fixed_text(scaled, dig))) == decimal_digits(magnitude(scaled)),
{
    let t = signed_text(scaled);
    let m = magnitude(scaled);
    lemma_signed_text_len(scaled);
    lemma_decimal_digits(m);
    lemma_digits_of_all(decimal_digits(m));
    lemma_digits_of_none(sign_text(scaled));
    lemma_digits_of_add(sign_text(scaled), decimal_digits(m));
    assert(digits_of(t) == decimal_digits(m));
    let f = fixed_text(scaled, dig);
    let pad = spaces((12 - f.len()) as nat);
    lemma_digits_of_none(pad);
    lemma_digits_of_add(pad, f);
    if dig > 0 {
        let k = t.len() - dig;
        let a = t.subrange(0, k);
        let b = t.subrange(k, t.len() as int);
        let dot: Seq<u8> = seq![ASCII_DOT];
        assert(f == a + dot + b);
        assert(t =~= a + b);
        lemma_digits_of_none(dot);
        lemma_digits_of_add(a + dot, b);
        lemma_digits_of_add(a, dot);
        lemma_digits_of_add(a, b);
        assert(digits_of(a) + Seq::<u8>::empty() =~= digits_of(a));
    }
    assert(Seq::<u8>::empty() + digits_of(f) =~= digits_of(f));
}

/// Where zeros are padded in (`dig > 0` and the text of the scaled value is
/// no longer than `dig`), the digits of the rendering are those zeros followed
/// by the decimal digits of the scaled integer.
pub proof fn lemma_fixed_digits_padded(scaled: i16, dig: nat)
    requires
        0 < dig <= 4,
        signed_text(scaled).len() <= dig,
    ensures
        digits_of(right_justified(fixed_text(scaled, dig))) == zeros(
            (dig + 1 - signed_text(scaled).len()) as nat,
        ) + decimal_digits(magnitude(scaled)),
{
    let m = magnitude(scaled);
    let z = zeros((dig + 1 - signed_text(scaled).len()) as nat);
    let s = sign_text(scaled);
    let p = padded_text(scaled, dig);
    lemma_signed_text_len(scaled);
    lemma_decimal_digits(m);
    lemma_digits_of_all(decimal_digits(m));
    lemma_digits_of_all(z);
    lemma_digits_of_none(s);
    lemma_digits_of_add(s + z, decimal_digits(m));
    lemma_digits_of_add(s, z);
    assert(Seq::<u8>::empty() + z =~= z);
    assert(digits_of(p) == z + decimal_digits(m));
    let f = fixed_text(scaled, dig);
    let pad = spaces((12 - f.len()) as nat);
    lemma_digits_of_none(pad);
    lemma_digits_of_add(pad, f);
    let k = p.len() - dig;
    let a = p.subrange(0, k);
    let b = p.subrange(k, p.len() as int);
    let dot: Seq<u8> = seq![ASCII_DOT];
    assert(f == a + dot + b);
    assert(p =~= a + b);
    lemma_digits_of_none(dot);
    lemma_digits_of_add(a + dot, b);
    lemma_digits_of_add(a, dot);
    lemma_digits_of_add(a, b);
    assert(digits_of(a) + Seq::<u8>::empty() =~= digits_of(a));
    assert(Seq::<u8>::empty() + digits_of(f) =~= digits_of(f));
}

} // verus!
