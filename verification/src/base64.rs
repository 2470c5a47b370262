//! Base64 codec: a lenient decoder and a canonical wrapped encoder.
//!
//! The decoder classifies every byte as a 6-bit value, ignorable
//! whitespace, or invalid; it stops at the first invalid byte and then
//! consumes any immediately following `=` padding. It never fails.
use vstd::arithmetic::div_mod::{
    lemma_fundamental_div_mod, lemma_fundamental_div_mod_converse_div,
    lemma_fundamental_div_mod_converse_mod,
};
use vstd::prelude::*;

verus! {

/// Two to the power `e`, for the small shift widths the codec works
/// with (at most six bits at a time).
pub open spec fn shift_val(e: nat) -> nat {
    if e == 0 {
        1
    } else if e == 1 {
        2
    } else if e == 2 {
        4
    } else if e == 3 {
        8
    } else if e == 4 {
        16
    } else if e == 5 {
        32
    } else {
        64
    }
}

/// Bytes the decoder skips without effect: space, tab, CR, LF.
pub open spec fn is_b64_ignore(b: u8) -> bool {
    b == 32 || b == 9 || b == 13 || b == 10
}

/// The 6-bit value of a standard-alphabet byte, or -1 for a byte
/// outside the alphabet.
pub open spec fn b64_value(b: u8) -> int {
    if 65 <= b <= 90 {
        b - 65
    } else if 97 <= b <= 122 {
        b - 97 + 26
    } else if 48 <= b <= 57 {
        b - 48 + 52
    } else if b == 43 {
        62
    } else if b == 47 {
        63
    } else {
        -1
    }
}

/// True of bytes that carry base64 data.
pub open spec fn is_b64_data(b: u8) -> bool {
    b64_value(b) >= 0
}

/// True of bytes at which the decoder's scan stops.
pub open spec fn is_b64_invalid(b: u8) -> bool {
    !is_b64_data(b) && !is_b64_ignore(b)
}

/// Position of the first invalid byte at or after `i`, or the end of
/// the buffer: the decoder's scan consumes exactly `[i, scan_end)`.
pub open spec fn spec_b64_scan_end(s: Seq<u8>, i: int) -> int
    decreases s.len() - i,
    when 0 <= i <= s.len()
{
    if i >= s.len() {
        i
    } else if is_b64_invalid(s[i]) {
        i
    } else {
        spec_b64_scan_end(s, i + 1)
    }
}

/// Position of the first byte at or after `i` that is not an `=`
/// padding byte.
pub open spec fn spec_b64_pad_end(s: Seq<u8>, i: int) -> int
    decreases s.len() - i,
    when 0 <= i <= s.len()
{
    if i >= s.len() {
        i
    } else if s[i] == 61 {
        spec_b64_pad_end(s, i + 1)
    } else {
        i
    }
}

/// Position of the first unconsumed byte after decoding from `i`:
/// the scan, then any `=` padding.
pub open spec fn spec_b64_end(s: Seq<u8>, i: int) -> int {
    spec_b64_pad_end(s, spec_b64_scan_end(s, i))
}

/// The bytes decoded from position `i` on, given `bits` pending bits
/// whose value is `acc`: each data byte shifts six bits into the
/// accumulator, and a byte is emitted whenever eight or more bits are
/// pending; ignorable bytes change nothing; the first invalid byte
/// stops the scan.
pub open spec fn spec_b64_decode_from(s: Seq<u8>, i: int, bits: nat, acc: nat) -> Seq<u8>
    decreases s.len() - i,
    when 0 <= i <= s.len()
{
    if i >= s.len() {
        Seq::empty()
    } else {
        let v = b64_value(s[i]);
        if v >= 0 {
            let acc2 = (acc * 64 + v) as nat;
            let bits2 = bits + 6;
            if bits2 >= 8 {
                seq![(acc2 / shift_val((bits2 - 8) as nat)) as u8] + spec_b64_decode_from(
                    s,
                    i + 1,
                    (bits2 - 8) as nat,
                    acc2 % shift_val((bits2 - 8) as nat),
                )
            } else {
                spec_b64_decode_from(s, i + 1, bits2, acc2)
            }
        } else if is_b64_ignore(s[i]) {
            spec_b64_decode_from(s, i + 1, bits, acc)
        } else {
            Seq::empty()
        }
    }
}

/// The bytes the decoder yields from position `i` of `s`.
pub open spec fn spec_b64_decoded(s: Seq<u8>, i: int) -> Seq<u8> {
    spec_b64_decode_from(s, i, 0, 0)
}

/// The standard-alphabet byte for a 6-bit value.
pub open spec fn b64_char(v: int) -> u8 {
    if 0 <= v <= 25 {
        (65 + v) as u8
    } else if 26 <= v <= 51 {
        (97 + v - 26) as u8
    } else if 52 <= v <= 61 {
        (48 + v - 52) as u8
    } else if v == 62 {
        43
    } else {
        47
    }
}

/// One emitted character of wrapped base64 text: the character itself,
/// followed by a line break when it fills a line of `w` characters.
pub open spec fn wrap_one(c: u8, col: nat, w: nat) -> Seq<u8> {
    if col + 1 == w {
        seq![c, 10u8]
    } else {
        seq![c]
    }
}

/// The column after emitting one character at column `col` with line
/// width `w`.
pub open spec fn next_col(col: nat, w: nat) -> nat {
    if col + 1 == w {
        0
    } else {
        col + 1
    }
}

/// The remaining encoded text from byte `i` of `data` on, given `bits`
/// pending bits of value `acc` and the current output column: each
/// input byte shifts eight bits in, and a character is emitted for
/// every six pending bits; at the end, leftover bits are left-shifted
/// into one final character followed by `=` padding, and a line break
/// closes any non-empty final line.
pub open spec fn spec_text_from(data: Seq<u8>, i: int, bits: nat, acc: nat, col: nat, w: nat) -> Seq<
    u8,
>
    decreases data.len() - i,
    when 0 <= i <= data.len()
{
    if i >= data.len() {
        if bits > 0 {
            let c = b64_char((acc * shift_val((6 - bits) as nat)) as int);
            if bits == 2 {
                seq![c, 61u8, 61u8, 10u8]
            } else {
                seq![c, 61u8, 10u8]
            }
        } else {
            if col > 0 {
                seq![10u8]
            } else {
                Seq::empty()
            }
        }
    } else {
        let acc2 = (acc * 256 + data[i]) as nat;
        let bits2 = bits + 8;
        if bits2 >= 12 {
            let s1 = acc2 / 64;
            let s2 = acc2 % 64;
            let col1 = next_col(col, w);
            wrap_one(b64_char(s1 as int), col, w) + wrap_one(b64_char(s2 as int), col1, w)
                + spec_text_from(data, i + 1, 0, 0, next_col(col1, w), w)
        } else {
            let sh = (bits2 - 6) as nat;
            wrap_one(b64_char((acc2 / shift_val(sh)) as int), col, w) + spec_text_from(
                data,
                i + 1,
                sh,
                acc2 % shift_val(sh),
                next_col(col, w),
                w,
            )
        }
    }
}

/// The full encoded text of `data`, wrapped at `w` characters per line.
pub open spec fn spec_b64_text(data: Seq<u8>, w: nat) -> Seq<u8> {
    spec_text_from(data, 0, 0, 0, 0, w)
}

/// The standard-alphabet byte for a 6-bit value.
pub(crate) fn enc_char(v: u8) -> (c: u8)
    requires
        v < 64,
    ensures
        c == b64_char(v as int),
{
    if v <= 25 {
        65 + v
    } else if v <= 51 {
        97 + v - 26
    } else if v <= 61 {
        48 + v - 52
    } else if v == 62 {
        43
    } else {
        47
    }
}

/// Class of one byte for the decoder: its 6-bit value, 254 for
/// ignorable whitespace, 255 for an invalid byte.
fn b64_class(b: u8) -> (v: u8)
    ensures
        v < 64 ==> b64_value(b) == v as int,
        v == 254 ==> is_b64_ignore(b),
        v == 255 ==> is_b64_invalid(b),
        v < 64 || v == 254 || v == 255,
{
    if b >= 65 && b <= 90 {
        b - 65
    } else if b >= 97 && b <= 122 {
        b - 97 + 26
    } else if b >= 48 && b <= 57 {
        b - 48 + 52
    } else if b == 43 {
        62
    } else if b == 47 {
        63
    } else if b == 32 || b == 9 || b == 13 || b == 10 {
        254
    } else {
        255
    }
}

/// Decodes base64 data found at position `from` of `input`.
///
/// Returns the decoded bytes and the position immediately after the
/// consumed text: the scan stops at the first byte outside the
/// alphabet and whitespace set, and any `=` padding directly after the
/// scan is consumed without validation. No input is ever an error.
pub fn base64(input: &[u8], from: usize) -> (r: (Vec<u8>, usize))
    requires
        from <= input@.len(),
    ensures
        r.0@ == spec_b64_decoded(input@, from as int),
        r.1 == spec_b64_end(input@, from as int),
        from <= r.1 <= input@.len(),
{
    let ghost s = input@;
    let mut out: Vec<u8> = Vec::new();
    let mut i: usize = from;
    let mut acc: u16 = 0;
    let mut bits: u8 = 0;
    while i < input.len() && b64_class(input[i]) != 255
        invariant
            from <= i <= s.len(),
            bits == 0 || bits == 2 || bits == 4 || bits == 6,
            (acc as nat) < shift_val(bits as nat),
            spec_b64_decode_from(s, from as int, 0, 0) == out@ + spec_b64_decode_from(
                s,
                i as int,
                bits as nat,
                acc as nat,
            ),
            spec_b64_scan_end(s, from as int) == spec_b64_scan_end(s, i as int),
        decreases s.len() - i,
    {
        let v = b64_class(input[i]);
        if v < 64 {
            acc = acc * 64 + v as u16;
            bits = bits + 6;
            if bits >= 8 {
                bits = bits - 8;
                let d: u16 = if bits == 0 {
                    1
                } else if bits == 2 {
                    4
                } else {
                    16
                };
                proof {
                    assert(d as nat == shift_val(bits as nat));
                }
                out.push((acc / d) as u8);
                acc = acc % d;
            }
        }
        i = i + 1;
    }
    proof {
        assert(spec_b64_decode_from(s, i as int, bits as nat, acc as nat) =~= Seq::<u8>::empty());
        assert(out@ =~= out@ + Seq::<u8>::empty());
        assert(spec_b64_scan_end(s, i as int) == i as int);
    }
    while i < input.len() && input[i] == 61
        invariant
            from <= i <= s.len(),
            out@ == spec_b64_decoded(s, from as int),
            spec_b64_pad_end(s, spec_b64_scan_end(s, from as int)) == spec_b64_pad_end(s, i as int),
        decreases s.len() - i,
    {
        i = i + 1;
    }
    proof {
        assert(spec_b64_pad_end(s, i as int) == i as int);
    }
    (out, i)
}

proof fn lemma_scan_end_bounds(s: Seq<u8>, i: int)
    requires
        0 <= i <= s.len(),
    ensures
        i <= spec_b64_scan_end(s, i) <= s.len(),
    decreases s.len() - i,
{
    if i < s.len() && !is_b64_invalid(s[i]) {
        lemma_scan_end_bounds(s, i + 1);
    }
}

proof fn lemma_pad_end_bounds(s: Seq<u8>, i: int)
    requires
        0 <= i <= s.len(),
    ensures
        i <= spec_b64_pad_end(s, i) <= s.len(),
    decreases s.len() - i,
{
    if i < s.len() && s[i] == 61 {
        lemma_pad_end_bounds(s, i + 1);
    }
}

/// The decoder's consumed region stays within the buffer.
pub proof fn lemma_b64_end_bounds(s: Seq<u8>, i: int)
    requires
        0 <= i <= s.len(),
    ensures
        i <= spec_b64_end(s, i) <= s.len(),
{
    lemma_scan_end_bounds(s, i);
    lemma_pad_end_bounds(s, spec_b64_scan_end(s, i));
}

/// The 6-bit values of the alphabet bytes at or after `i`, up to the
/// first invalid byte: exactly the data the decoder reads.
pub open spec fn b64_data_seq(s: Seq<u8>, i: int) -> Seq<u8>
    decreases s.len() - i,
    when 0 <= i <= s.len()
{
    if i >= s.len() {
        Seq::empty()
    } else if is_b64_data(s[i]) {
        seq![b64_value(s[i]) as u8] + b64_data_seq(s, i + 1)
    } else if is_b64_ignore(s[i]) {
        b64_data_seq(s, i + 1)
    } else {
        Seq::empty()
    }
}

/// The bytes obtained by folding a sequence of 6-bit values through
/// the decoder's accumulator, starting from `bits` pending bits of
/// value `acc`.
pub open spec fn spec_b64_fold(vs: Seq<u8>, bits: nat, acc: nat) -> Seq<u8>
    decreases vs.len(),
{
    if vs.len() == 0 {
        Seq::empty()
    } else {
        let acc2 = (acc * 64 + vs[0]) as nat;
        let bits2 = bits + 6;
        if bits2 >= 8 {
            seq![(acc2 / shift_val((bits2 - 8) as nat)) as u8] + spec_b64_fold(
                vs.drop_first(),
                (bits2 - 8) as nat,
                acc2 % shift_val((bits2 - 8) as nat),
            )
        } else {
            spec_b64_fold(vs.drop_first(), bits2, acc2)
        }
    }
}

proof fn lemma_decode_is_fold(s: Seq<u8>, i: int, bits: nat, acc: nat)
    requires
        0 <= i <= s.len(),
    ensures
        spec_b64_decode_from(s, i, bits, acc) == spec_b64_fold(b64_data_seq(s, i), bits, acc),
    decreases s.len() - i,
{
    if i >= s.len() {
    } else if is_b64_data(s[i]) {
        let v = b64_value(s[i]);
        assert(0 <= v < 64);
        let vs = b64_data_seq(s, i);
        assert(vs == seq![v as u8] + b64_data_seq(s, i + 1));
        assert(vs[0] == v as u8);
        assert(vs.drop_first() =~= b64_data_seq(s, i + 1));
        let acc2 = (acc * 64 + v) as nat;
        assert((acc * 64 + vs[0]) as nat == acc2);
        if bits + 6 >= 8 {
            let sh = (bits + 6 - 8) as nat;
            lemma_decode_is_fold(s, i + 1, sh, acc2 % shift_val(sh));
        } else {
            lemma_decode_is_fold(s, i + 1, bits + 6, acc2);
        }
    } else if is_b64_ignore(s[i]) {
        lemma_decode_is_fold(s, i + 1, bits, acc);
        assert(b64_data_seq(s, i) == b64_data_seq(s, i + 1));
    } else {
    }
}

/// What the decoder yields depends only on the 6-bit values of the
/// alphabet bytes standing before the first invalid byte: whitespace
/// interspersed in the encoded text has no effect, and no byte at or
/// after the first invalid one is read.
pub proof fn lemma_b64_decode_data_only(s: Seq<u8>, i: int)
    requires
        0 <= i <= s.len(),
    ensures
        spec_b64_decoded(s, i) == spec_b64_fold(b64_data_seq(s, i), 0, 0),
{
    lemma_decode_is_fold(s, i, 0, 0);
}

/// Two buffers whose data bytes agree decode to the same bytes,
/// however their whitespace and their text after the first invalid
/// byte differ.
pub proof fn lemma_b64_decode_whitespace_insensitive(s1: Seq<u8>, i1: int, s2: Seq<u8>, i2: int)
    requires
        0 <= i1 <= s1.len(),
        0 <= i2 <= s2.len(),
        b64_data_seq(s1, i1) == b64_data_seq(s2, i2),
    ensures
        spec_b64_decoded(s1, i1) == spec_b64_decoded(s2, i2),
{
    lemma_b64_decode_data_only(s1, i1);
    lemma_b64_decode_data_only(s2, i2);
}

/// `(a * (q * d) + b) / d == a * q + b / d` and the matching remainder
/// fact: dividing strips whole multiples of `d`.
proof fn lemma_div_factor(a: int, b: int, q: int, d: int)
    requires
        a >= 0,
        b >= 0,
        q >= 0,
        d > 0,
    ensures
        (a * (q * d) + b) / d == a * q + b / d,
        (a * (q * d) + b) % d == b % d,
{
    lemma_fundamental_div_mod(b, d);
    let bd = b / d;
    let br = b % d;
    assert(a * (q * d) + b == (a * q + bd) * d + br) by (nonlinear_arith)
        requires
            b == d * bd + br,
    ;
    lemma_fundamental_div_mod_converse_div(a * (q * d) + b, d, a * q + bd, br);
    lemma_fundamental_div_mod_converse_mod(a * (q * d) + b, d, a * q + bd, br);
}

proof fn lemma_b64_char_value(v: int)
    requires
        0 <= v < 64,
    ensures
        b64_value(b64_char(v)) == v,
        is_b64_data(b64_char(v)),
        !is_b64_invalid(b64_char(v)),
{
}

proof fn lemma_decode_shift(s: Seq<u8>, k: int, j: int, bits: nat, acc: nat)
    requires
        0 <= k,
        0 <= j,
        k + j <= s.len(),
    ensures
        spec_b64_decode_from(s, k + j, bits, acc) == spec_b64_decode_from(
            s.subrange(k, s.len() as int),
            j,
            bits,
            acc,
        ),
    decreases s.len() - (k + j),
{
    let t = s.subrange(k, s.len() as int);
    assert(t.len() == s.len() - k);
    if k + j >= s.len() {
    } else {
        assert(t[j] == s[k + j]);
        let b = s[k + j];
        let v = b64_value(b);
        if v >= 0 {
            let acc2 = (acc * 64 + v) as nat;
            let bits2 = bits + 6;
            if bits2 >= 8 {
                let sh = (bits2 - 8) as nat;
                lemma_decode_shift(s, k, j + 1, sh, acc2 % shift_val(sh));
                assert(k + (j + 1) == k + j + 1);
            } else {
                lemma_decode_shift(s, k, j + 1, bits2, acc2);
            }
        } else if is_b64_ignore(b) {
            lemma_decode_shift(s, k, j + 1, bits, acc);
        } else {
        }
    }
}

#[verifier::rlimit(80)]
#[verifier::spinoff_prover]
proof fn lemma_rt_from(data: Seq<u8>, i: int, bits: nat, acc: nat, dbits: nat, dacc: nat, col: nat, w: nat)
    requires
        0 <= i <= data.len(),
        bits == 0 || bits == 2 || bits == 4,
        acc < shift_val(bits),
        bits == 0 ==> dbits == 0 && dacc == 0,
        bits > 0 ==> dbits == (8 - bits) as nat && i >= 1 && dacc < shift_val(dbits) && dacc
            * shift_val(bits) + acc == data[i - 1],
    ensures
        spec_b64_decode_from(spec_text_from(data, i, bits, acc, col, w), 0, dbits, dacc)
            == data.subrange(
            if bits == 0 {
                i
            } else {
                i - 1
            },
            data.len() as int,
        ),
    decreases data.len() - i,
{
    let text = spec_text_from(data, i, bits, acc, col, w);
    if i >= data.len() {
        if bits == 0 {
            if col > 0 {
                assert(text =~= seq![10u8]);
                assert(spec_b64_decode_from(text, 0, 0, 0) == spec_b64_decode_from(text, 1, 0, 0));
            }
            assert(spec_b64_decode_from(text, 0, dbits, dacc) =~= data.subrange(
                i,
                data.len() as int,
            ));
        } else {
            let sv = if bits == 2 {
                16int
            } else {
                4int
            };
            let cv = acc * sv;
            assert(cv == acc * shift_val((6 - bits) as nat));
            assert(0 <= cv < 64);
            let c = b64_char(cv);
            lemma_b64_char_value(cv);
            assert(text[0] == c);
            assert(text[1] == 61);
            let acc2d = (dacc * 64 + cv) as nat;
            let shd = (dbits + 6 - 8) as nat;
            assert(shd == (8 - bits) as nat - 2);
            let q = (dacc * shift_val(bits) + acc) as nat;
            assert(dacc * 64 + cv == q * shift_val(shd) + 0) by (nonlinear_arith)
                requires
                    cv == acc * sv,
                    q == dacc * shift_val(bits) + acc,
                    (bits == 2 && sv == 16 && shift_val(bits) == 4 && shift_val(shd) == 16) || (
                    bits == 4 && sv == 4 && shift_val(bits) == 16 && shift_val(shd) == 4),
            ;
            lemma_fundamental_div_mod_converse_div(acc2d as int, shift_val(shd) as int, q as int, 0);
            lemma_fundamental_div_mod_converse_mod(acc2d as int, shift_val(shd) as int, q as int, 0);
            assert(acc2d / shift_val(shd) == q);
            assert(acc2d % shift_val(shd) == 0);
            assert(q == data[i - 1]);
            assert(spec_b64_decode_from(text, 0, dbits, dacc) == seq![(acc2d / shift_val(
                shd,
            )) as u8] + spec_b64_decode_from(text, 1, shd, 0));
            assert(is_b64_invalid(61));
            assert(spec_b64_decode_from(text, 1, shd, 0) =~= Seq::<u8>::empty());
            assert(spec_b64_decode_from(text, 0, dbits, dacc) =~= data.subrange(
                i - 1,
                data.len() as int,
            ));
        }
    } else {
        let b = data[i];
        let acc2 = (acc * 256 + b) as nat;
        if bits == 0 {
            assert(acc == 0);
            assert(acc2 == b);
            let s1v = acc2 / shift_val(2);
            assert(s1v == b as int / 4);
            assert(0 <= s1v < 64);
            lemma_b64_char_value(s1v as int);
            let c1 = b64_char(s1v as int);
            let rest = spec_text_from(data, i + 1, 2, acc2 % shift_val(2), next_col(col, w), w);
            assert(acc2 % shift_val(2) == b as int % 4);
            let p = wrap_one(c1, col, w);
            assert(text =~= p + rest);
            assert(text[0] == c1);
            // the decoder takes the six bits in without yet emitting a byte
            assert(spec_b64_decode_from(text, 0, 0, 0) == spec_b64_decode_from(
                text,
                1,
                6,
                s1v,
            ));
            let np: int = if col + 1 == w {
                2
            } else {
                1
            };
            if col + 1 == w {
                assert(text[1] == 10);
                assert(is_b64_ignore(10));
                assert(spec_b64_decode_from(text, 1, 6, s1v) == spec_b64_decode_from(
                    text,
                    2,
                    6,
                    s1v,
                ));
            }
            assert(p.len() == np);
            lemma_decode_shift(text, np, 0, 6, s1v);
            assert(text.subrange(np, text.len() as int) =~= rest);
            lemma_fundamental_div_mod(b as int, 4);
            lemma_rt_from(
                data,
                i + 1,
                2,
                (b as int % 4) as nat,
                6,
                s1v,
                next_col(col, w),
                w,
            );
            assert(spec_b64_decode_from(text, 0, dbits, dacc) == data.subrange(
                i,
                data.len() as int,
            ));
        } else if bits == 2 {
            // one character carrying the pending two bits and the top four of b
            assert(acc * 256 == acc * (16 * 16));
            lemma_div_factor(acc as int, b as int, 16, 16);
            let s1v = acc2 / shift_val(4);
            assert(s1v == acc * 16 + b as int / 16);
            assert(0 <= s1v < 64);
            lemma_b64_char_value(s1v as int);
            let c1 = b64_char(s1v as int);
            let rest = spec_text_from(data, i + 1, 4, acc2 % shift_val(4), next_col(col, w), w);
            assert(acc2 % shift_val(4) == b as int % 16);
            let p = wrap_one(c1, col, w);
            assert(text =~= p + rest);
            assert(text[0] == c1);
            let acc2d = (dacc * 64 + s1v) as nat;
            let q = (dacc * 4 + acc) as nat;
            assert(dacc * 64 + s1v == q * 16 + b as int / 16) by (nonlinear_arith)
                requires
                    s1v == acc * 16 + b as int / 16,
                    q == dacc * 4 + acc,
            ;
            lemma_fundamental_div_mod_converse_div(acc2d as int, 16, q as int, b as int / 16);
            lemma_fundamental_div_mod_converse_mod(acc2d as int, 16, q as int, b as int / 16);
            assert(q == data[i - 1]);
            assert(spec_b64_decode_from(text, 0, 6, dacc) == seq![(acc2d / shift_val(4)) as u8]
                + spec_b64_decode_from(text, 1, 4, acc2d % shift_val(4)));
            let np: int = if col + 1 == w {
                2
            } else {
                1
            };
            if col + 1 == w {
                assert(text[1] == 10);
                assert(spec_b64_decode_from(text, 1, 4, (b as int / 16) as nat)
                    == spec_b64_decode_from(text, 2, 4, (b as int / 16) as nat));
            }
            assert(p.len() == np);
            lemma_decode_shift(text, np, 0, 4, (b as int / 16) as nat);
            assert(text.subrange(np, text.len() as int) =~= rest);
            lemma_fundamental_div_mod(b as int, 16);
            lemma_rt_from(
                data,
                i + 1,
                4,
                (b as int % 16) as nat,
                4,
                (b as int / 16) as nat,
                next_col(col, w),
                w,
            );
            assert(spec_b64_decode_from(text, 0, dbits, dacc) =~= data.subrange(
                i - 1,
                data.len() as int,
            ));
        } else {
            // two characters: the pending four bits plus all of b
            assert(acc * 256 == acc * (4 * 64));
            lemma_div_factor(acc as int, b as int, 4, 64);
            let s1v = acc2 / 64;
            let s2v = acc2 % 64;
            assert(s1v == acc * 4 + b as int / 64);
            assert(s2v == b as int % 64);
            assert(0 <= s1v < 64);
            assert(0 <= s2v < 64);
            lemma_b64_char_value(s1v as int);
            lemma_b64_char_value(s2v as int);
            let c1 = b64_char(s1v as int);
            let c2 = b64_char(s2v as int);
            let col1 = next_col(col, w);
            let rest = spec_text_from(data, i + 1, 0, 0, next_col(col1, w), w);
            let p = wrap_one(c1, col, w) + wrap_one(c2, col1, w);
            assert(text =~= p + rest);
            assert(text[0] == c1);
            let acc2d = (dacc * 64 + s1v) as nat;
            let q = (dacc * 16 + acc) as nat;
            assert(dacc * 64 + s1v == q * 4 + b as int / 64) by (nonlinear_arith)
                requires
                    s1v == acc * 4 + b as int / 64,
                    q == dacc * 16 + acc,
            ;
            lemma_fundamental_div_mod_converse_div(acc2d as int, 4, q as int, b as int / 64);
            lemma_fundamental_div_mod_converse_mod(acc2d as int, 4, q as int, b as int / 64);
            assert(q == data[i - 1]);
            assert(acc2d / shift_val(2) == q);
            assert(acc2d % shift_val(2) == b as int / 64);
            assert(spec_b64_decode_from(text, 0, 4, dacc) == seq![(acc2d / shift_val(2)) as u8]
                + spec_b64_decode_from(text, 1, 2, (b as int / 64) as nat));
            let n1: int = if col + 1 == w {
                2
            } else {
                1
            };
            if col + 1 == w {
                assert(text[1] == 10);
                assert(spec_b64_decode_from(text, 1, 2, (b as int / 64) as nat)
                    == spec_b64_decode_from(text, 2, 2, (b as int / 64) as nat));
            }
            assert(text[n1] == c2);
            let acc3d = ((b as int / 64) * 64 + s2v) as nat;
            lemma_fundamental_div_mod(b as int, 64);
            assert(acc3d == b);
            lemma_fundamental_div_mod_converse_div(acc3d as int, 1, acc3d as int, 0);
            lemma_fundamental_div_mod_converse_mod(acc3d as int, 1, acc3d as int, 0);
            assert(acc3d / shift_val(0) == b);
            assert(acc3d % shift_val(0) == 0);
            assert(spec_b64_decode_from(text, n1, 2, (b as int / 64) as nat) == seq![(acc3d
                / shift_val(0)) as u8] + spec_b64_decode_from(text, n1 + 1, 0, 0));
            let np: int = if col1 + 1 == w {
                n1 + 2
            } else {
                n1 + 1
            };
            if col1 + 1 == w {
                assert(text[n1 + 1] == 10);
                assert(spec_b64_decode_from(text, n1 + 1, 0, 0) == spec_b64_decode_from(
                    text,
                    n1 + 2,
                    0,
                    0,
                ));
            }
            assert(p.len() == np);
            lemma_decode_shift(text, np, 0, 0, 0);
            assert(text.subrange(np, text.len() as int) =~= rest);
            lemma_rt_from(data, i + 1, 0, 0, 0, 0, next_col(col1, w), w);
            assert(spec_b64_decode_from(text, 0, dbits, dacc) =~= data.subrange(
                i - 1,
                data.len() as int,
            ));
        }
    }
}

/// Decoding the encoder's wrapped, padded text gives back exactly the
/// bytes that were encoded, for every line width.
pub proof fn lemma_base64_round_trip(data: Seq<u8>, w: nat)
    ensures
        spec_b64_decoded(spec_b64_text(data, w), 0) == data,
{
    lemma_rt_from(data, 0, 0, 0, 0, 0, 0, w);
    assert(data.subrange(0, data.len() as int) =~= data);
}

} // verus!
