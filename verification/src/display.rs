//! Rendering of a block back to canonical PEM text: header lines and
//! base64 wrapped at a fixed width.
use vstd::prelude::*;

use vstd::utf8::encode_utf8;

use crate::base64::{b64_char, enc_char, next_col, shift_val, spec_b64_text, spec_text_from, wrap_one};
use crate::headers::{HeaderEntry, HeaderEntryView, ProcTypeType, RFC1423Algorithm};

verus! {

/// Appends one base64 character, and the line break that closes a full
/// line of `width` characters; returns the next column.
fn push_char(out: &mut Vec<u8>, v: u8, col: u128, width: usize) -> (col2: u128)
    requires
        v < 64,
        col < u128::MAX,
    ensures
        final(out)@ == old(out)@ + wrap_one(b64_char(v as int), col as nat, width as nat),
        col2 as nat == next_col(col as nat, width as nat),
        col2 <= col + 1,
{
    out.push(enc_char(v));
    if col + 1 == width as u128 {
        out.push(10);
        proof {
            assert(out@ =~= old(out)@ + wrap_one(b64_char(v as int), col as nat, width as nat));
        }
        0
    } else {
        proof {
            assert(out@ =~= old(out)@ + wrap_one(b64_char(v as int), col as nat, width as nat));
        }
        col + 1
    }
}

/// Appends the base64 encoding of `data` to `out`, wrapped at `width`
/// characters per line, `=`-padded, and closed by a final line break
/// whenever the last emitted line is non-empty.
pub fn write_base64(out: &mut Vec<u8>, data: &[u8], width: usize)
    ensures
        final(out)@ == old(out)@ + spec_b64_text(data@, width as nat),
{
    let ghost d = data@;
    let ghost w = width as nat;
    let ghost out0 = out@;
    let mut i: usize = 0;
    let mut acc: u16 = 0;
    let mut bits: u8 = 0;
    let mut col: u128 = 0;
    while i < data.len()
        invariant
            i <= d.len(),
            bits == 0 || bits == 2 || bits == 4,
            (acc as nat) < shift_val(bits as nat),
            col <= 2 * (i as u128),
            out0 + spec_text_from(d, 0, 0, 0, 0, w) == out@ + spec_text_from(
                d,
                i as int,
                bits as nat,
                acc as nat,
                col as nat,
                w,
            ),
        decreases d.len() - i,
    {
        let ghost bits0 = bits as nat;
        let ghost acc0 = acc as nat;
        let ghost col0 = col as nat;
        let ghost i0 = i as int;
        let ghost out_in = out@;
        let b = data[i];
        acc = acc * 256 + b as u16;
        let ghost acc2 = acc as nat;
        if bits == 4 {
            let s1 = (acc / 64) as u8;
            let s2 = (acc % 64) as u8;
            col = push_char(out, s1, col, width);
            col = push_char(out, s2, col, width);
            acc = 0;
            bits = 0;
            proof {
                assert(spec_text_from(d, i0, bits0, acc0, col0, w) =~= wrap_one(
                    b64_char(s1 as int),
                    col0,
                    w,
                ) + wrap_one(b64_char(s2 as int), next_col(col0, w), w) + spec_text_from(
                    d,
                    i0 + 1,
                    0,
                    0,
                    next_col(next_col(col0, w), w),
                    w,
                ));
                assert(out_in + spec_text_from(d, i0, bits0, acc0, col0, w) =~= out@
                    + spec_text_from(d, i0 + 1, 0, 0, col as nat, w));
            }
        } else {
            let dv: u16 = if bits == 0 {
                4
            } else {
                16
            };
            proof {
                assert(dv as nat == shift_val((bits0 + 2) as nat));
            }
            let s1 = (acc / dv) as u8;
            col = push_char(out, s1, col, width);
            acc = acc % dv;
            bits = bits + 2;
            proof {
                assert(spec_text_from(d, i0, bits0, acc0, col0, w) =~= wrap_one(
                    b64_char(s1 as int),
                    col0,
                    w,
                ) + spec_text_from(d, i0 + 1, bits as nat, acc as nat, next_col(col0, w), w));
                assert(out_in + spec_text_from(d, i0, bits0, acc0, col0, w) =~= out@
                    + spec_text_from(d, i0 + 1, bits as nat, acc as nat, col as nat, w));
            }
        }
        i = i + 1;
    }
    if bits > 0 {
        let sh: u16 = if bits == 2 {
            16
        } else {
            4
        };
        proof {
            assert(sh as nat == shift_val((6 - bits) as nat));
        }
        let c = (acc * sh) as u8;
        out.push(enc_char(c));
        out.push(61);
        if bits == 2 {
            out.push(61);
        }
        out.push(10);
        proof {
            assert(out@ =~= out0 + spec_text_from(d, 0, 0, 0, 0, w));
        }
    } else {
        if col > 0 {
            out.push(10);
        }
        proof {
            assert(out@ =~= out0 + spec_text_from(d, 0, 0, 0, 0, w));
        }
    }
}

/// One uppercase hexadecimal digit byte for a nibble.
pub open spec fn hex_char(v: u8) -> u8
    recommends
        v < 16,
{
    if v > 9 {
        (55 + v) as u8
    } else {
        (48 + v) as u8
    }
}

/// The uppercase hexadecimal text of bytes, high nibble first.
pub open spec fn spec_hex_text(data: Seq<u8>) -> Seq<u8>
    decreases data.len(),
{
    if data.len() == 0 {
        Seq::empty()
    } else {
        seq![hex_char(data[0] / 16), hex_char(data[0] % 16)] + spec_hex_text(data.drop_first())
    }
}

/// The decimal text of a byte.
pub open spec fn u8_dec_text(n: u8) -> Seq<u8> {
    if n < 10 {
        seq![(48 + n) as u8]
    } else if n < 100 {
        seq![(48 + n / 10) as u8, (48 + n % 10) as u8]
    } else {
        seq![(48 + n / 100) as u8, (48 + (n / 10) % 10) as u8, (48 + n % 10) as u8]
    }
}

/// The canonical token of a processing kind.
pub open spec fn proctype_text(t: ProcTypeType) -> Seq<u8> {
    match t {
        ProcTypeType::ENCRYPTED => seq![69u8, 78, 67, 82, 89, 80, 84, 69, 68],
        ProcTypeType::MIC_ONLY => seq![77u8, 73, 67, 45, 79, 78, 76, 89],
        ProcTypeType::MIC_CLEAR => seq![77u8, 73, 67, 45, 67, 76, 69, 65, 82],
        ProcTypeType::CRL => seq![67u8, 82, 76],
    }
}

/// The canonical token of an algorithm.
pub open spec fn alg_text(alg: RFC1423Algorithm) -> Seq<u8> {
    match alg {
        RFC1423Algorithm::DES_CBC => seq![68u8, 69, 83, 45, 67, 66, 67],
        RFC1423Algorithm::DES_EDE3_CBC => seq![68u8, 69, 83, 45, 69, 68, 69, 51, 45, 67, 66, 67],
        RFC1423Algorithm::AES_128_CBC => seq![65u8, 69, 83, 45, 49, 50, 56, 45, 67, 66, 67],
        RFC1423Algorithm::AES_192_CBC => seq![65u8, 69, 83, 45, 49, 57, 50, 45, 67, 66, 67],
        RFC1423Algorithm::AES_256_CBC => seq![65u8, 69, 83, 45, 50, 53, 54, 45, 67, 66, 67],
    }
}

/// A long value rendered as continuation lines: a line break and one
/// leading space before each chunk of at most 64 characters.
pub open spec fn chunk_text(v: Seq<char>) -> Seq<u8>
    decreases v.len(),
{
    if v.len() > 64 {
        seq![10u8, 32u8] + encode_utf8(v.take(64)) + chunk_text(v.skip(64))
    } else {
        seq![10u8, 32u8] + encode_utf8(v)
    }
}

/// The output column after a value's last continuation chunk.
pub open spec fn chunk_final_len(v: Seq<char>) -> int
    decreases v.len(),
{
    if v.len() > 64 {
        chunk_final_len(v.skip(64))
    } else {
        v.len() + 1int
    }
}

/// The comma-joined values of a generic header from index `ix` on,
/// given the current output column: a value that still keeps the line
/// within 65 columns (its trailing comma included) stays on the line
/// and advances the column by its length; a longer one is folded into
/// continuation lines.
pub open spec fn values_text_from(values: Seq<Seq<char>>, ix: int, pos: int) -> Seq<u8>
    decreases values.len() - ix,
    when 0 <= ix <= values.len()
{
    if ix >= values.len() {
        Seq::empty()
    } else {
        let comma: Seq<u8> = if ix > 0 {
            seq![44u8]
        } else {
            Seq::empty()
        };
        let pos1: int = if ix > 0 {
            pos + 1
        } else {
            pos
        };
        let v = values[ix];
        if v.len() + pos1 <= 65 {
            comma + encode_utf8(v) + values_text_from(values, ix + 1, pos1 + v.len())
        } else {
            comma + chunk_text(v) + values_text_from(values, ix + 1, chunk_final_len(v))
        }
    }
}

/// The canonical text of one header entry, without its line break.
pub open spec fn header_text(h: HeaderEntryView) -> Seq<u8> {
    match h {
        HeaderEntryView::ProcType { level, t } => seq![
            80u8,
            114,
            111,
            99,
            45,
            84,
            121,
            112,
            101,
            58,
            32,
        ] + u8_dec_text(level) + seq![44u8] + proctype_text(t),
        HeaderEntryView::DEKInfo { alg, iv } => seq![68u8, 69, 75, 45, 73, 110, 102, 111, 58, 32]
            + alg_text(alg) + seq![44u8] + spec_hex_text(iv),
        HeaderEntryView::Entry { key, values } => encode_utf8(key) + seq![58u8, 32]
            + values_text_from(values, 0, key.len() + 2int),
    }
}

/// The header lines from index `ix` on, each closed by a line break.
pub open spec fn headers_lines(hs: Seq<HeaderEntryView>, ix: int) -> Seq<u8>
    decreases hs.len() - ix,
    when 0 <= ix <= hs.len()
{
    if ix >= hs.len() {
        Seq::empty()
    } else {
        header_text(hs[ix]) + seq![10u8] + headers_lines(hs, ix + 1)
    }
}

/// The canonical text of a header section: each header on its own
/// line, and a closing blank line — or nothing at all when there are
/// no headers.
pub open spec fn spec_headers_text(hs: Seq<HeaderEntryView>) -> Seq<u8> {
    if hs.len() == 0 {
        Seq::empty()
    } else {
        headers_lines(hs, 0) + seq![10u8]
    }
}

/// Appends one uppercase hexadecimal digit.
fn write_hex_char(out: &mut Vec<u8>, b: u8)
    requires
        b < 16,
    ensures
        final(out)@ == old(out)@ + seq![hex_char(b)],
{
    if b > 9 {
        out.push(55 + b);
    } else {
        out.push(48 + b);
    }
    proof {
        assert(out@ =~= old(out)@ + seq![hex_char(b)]);
    }
}

/// Appends the uppercase hexadecimal text of `data`.
fn write_hex(out: &mut Vec<u8>, data: &[u8])
    ensures
        final(out)@ == old(out)@ + spec_hex_text(data@),
{
    let ghost d = data@;
    let mut i: usize = 0;
    proof {
        assert(d.skip(0) =~= d);
    }
    while i < data.len()
        invariant
            i <= d.len(),
            old(out)@ + spec_hex_text(d) == out@ + spec_hex_text(d.skip(i as int)),
        decreases d.len() - i,
    {
        let b = data[i];
        write_hex_char(out, b / 16);
        write_hex_char(out, b % 16);
        proof {
            let t = d.skip(i as int);
            assert(t[0] == b);
            assert(t.drop_first() =~= d.skip(i as int + 1));
            assert(spec_hex_text(t) =~= seq![hex_char(b / 16), hex_char(b % 16)] + spec_hex_text(
                d.skip(i as int + 1),
            ));
        }
        i = i + 1;
    }
    proof {
        assert(d.skip(d.len() as int) =~= Seq::<u8>::empty());
        assert(out@ =~= old(out)@ + spec_hex_text(d));
    }
}

/// Appends the decimal text of a byte.
fn write_u8_dec(out: &mut Vec<u8>, n: u8)
    ensures
        final(out)@ == old(out)@ + u8_dec_text(n),
{
    if n < 10 {
        out.push(48 + n);
    } else if n < 100 {
        out.push(48 + n / 10);
        out.push(48 + n % 10);
    } else {
        out.push(48 + n / 100);
        out.push(48 + (n / 10) % 10);
        out.push(48 + n % 10);
    }
    proof {
        assert(out@ =~= old(out)@ + u8_dec_text(n));
    }
}

/// Appends the canonical text of one header entry, without its line
/// break.
#[verifier::rlimit(80)]
#[verifier::spinoff_prover]
fn write_header(out: &mut Vec<u8>, h: &HeaderEntry)
    ensures
        final(out)@ == old(out)@ + header_text(h@),
{
    match h {
        HeaderEntry::ProcType(level, t) => {
            out.push(80);
            out.push(114);
            out.push(111);
            out.push(99);
            out.push(45);
            out.push(84);
            out.push(121);
            out.push(112);
            out.push(101);
            out.push(58);
            out.push(32);
            write_u8_dec(out, *level);
            out.push(44);
            match t {
                ProcTypeType::ENCRYPTED => {
                    out.push(69);
                    out.push(78);
                    out.push(67);
                    out.push(82);
                    out.push(89);
                    out.push(80);
                    out.push(84);
                    out.push(69);
                    out.push(68);
                },
                ProcTypeType::MIC_ONLY => {
                    out.push(77);
                    out.push(73);
                    out.push(67);
                    out.push(45);
                    out.push(79);
                    out.push(78);
                    out.push(76);
                    out.push(89);
                },
                ProcTypeType::MIC_CLEAR => {
                    out.push(77);
                    out.push(73);
                    out.push(67);
                    out.push(45);
                    out.push(67);
                    out.push(76);
                    out.push(69);
                    out.push(65);
                    out.push(82);
                },
                ProcTypeType::CRL => {
                    out.push(67);
                    out.push(82);
                    out.push(76);
                },
            }
            proof {
                assert(out@ =~= old(out)@ + header_text(h@));
            }
        },
        HeaderEntry::DEKInfo(alg, iv) => {
            out.push(68);
            out.push(69);
            out.push(75);
            out.push(45);
            out.push(73);
            out.push(110);
            out.push(102);
            out.push(111);
            out.push(58);
            out.push(32);
            match alg {
                RFC1423Algorithm::DES_CBC => {
                    out.push(68);
                    out.push(69);
                    out.push(83);
                    out.push(45);
                    out.push(67);
                    out.push(66);
                    out.push(67);
                },
                RFC1423Algorithm::DES_EDE3_CBC => {
                    out.push(68);
                    out.push(69);
                    out.push(83);
                    out.push(45);
                    out.push(69);
                    out.push(68);
                    out.push(69);
                    out.push(51);
                    out.push(45);
                    out.push(67);
                    out.push(66);
                    out.push(67);
                },
                RFC1423Algorithm::AES_128_CBC => {
                    out.push(65);
                    out.push(69);
                    out.push(83);
                    out.push(45);
                    out.push(49);
                    out.push(50);
                    out.push(56);
                    out.push(45);
                    out.push(67);
                    out.push(66);
                    out.push(67);
                },
                RFC1423Algorithm::AES_192_CBC => {
                    out.push(65);
                    out.push(69);
                    out.push(83);
                    out.push(45);
                    out.push(49);
                    out.push(57);
                    out.push(50);
                    out.push(45);
                    out.push(67);
                    out.push(66);
                    out.push(67);
                },
                RFC1423Algorithm::AES_256_CBC => {
                    out.push(65);
                    out.push(69);
                    out.push(83);
                    out.push(45);
                    out.push(50);
                    out.push(53);
                    out.push(54);
                    out.push(45);
                    out.push(67);
                    out.push(66);
                    out.push(67);
                },
            }
            out.push(44);
            write_hex(out, iv.as_slice());
            proof {
                assert(out@ =~= old(out)@ + header_text(h@));
            }
        },
        HeaderEntry::Entry(key, values) => {
            out.extend_from_slice(key.as_str().as_bytes());
            out.push(58);
            out.push(32);
            proof {
                assert(out@ =~= old(out)@ + encode_utf8(key@) + seq![58u8, 32u8]);
            }
            write_values(out, values, key.as_str().unicode_len());
            proof {
                assert(out@ =~= old(out)@ + header_text(h@));
            }
        },
    }
}

/// Appends the comma-joined, width-folded values of a generic header,
/// starting after a key of `key_chars` characters and its `: `.
#[verifier::rlimit(90)]
#[verifier::spinoff_prover]
fn write_values(out: &mut Vec<u8>, values: &Vec<String>, key_chars: usize)
    ensures
        final(out)@ == old(out)@ + values_text_from(values.deep_view(), 0, key_chars + 2int),
{
    let ghost vs = values.deep_view();
    let ghost pos0: int = key_chars + 2int;
    let mut pos: u128 = key_chars as u128 + 2;
    let mut ix: usize = 0;
    proof {
        crate::lemma_deep_of_vec(values);
        assert(vs.len() == values@.len());
    }
    while ix < values.len()
        invariant
            0 <= ix <= vs.len(),
            vs == values.deep_view(),
            vs.len() == values@.len(),
            pos <= key_chars as u128 + 67,
            old(out)@ + values_text_from(vs, 0, pos0) == out@ + values_text_from(
                vs,
                ix as int,
                pos as int,
            ),
        decreases vs.len() - ix,
    {
        let ghost pos_in = pos as int;
        let ghost out_in = out@;
        if ix > 0 {
            out.push(44);
            pos = pos + 1;
        }
        let v = &values[ix];
        proof {
            assert(vs[ix as int] == v@);
        }
        let n = v.as_str().unicode_len();
        if n <= 65 && pos <= (65 - n) as u128 {
            out.extend_from_slice(v.as_str().as_bytes());
            pos = pos + n as u128;
            proof {
                let comma: Seq<u8> = if ix > 0 {
                    seq![44u8]
                } else {
                    Seq::<u8>::empty()
                };
                assert(values_text_from(vs, ix as int, pos_in) =~= comma + encode_utf8(vs[ix as int])
                    + values_text_from(vs, ix as int + 1, pos as int));
                assert(out_in + values_text_from(vs, ix as int, pos_in) =~= out@
                    + values_text_from(vs, ix as int + 1, pos as int));
            }
        } else {
            let ghost out_before_chunks = out@;
            let mut start: usize = 0;
            let mut rem = n;
            proof {
                assert(v@.skip(0) =~= v@);
            }
            while rem > 64
                invariant
                    v@ == vs[ix as int],
                    start + rem == n,
                    n == v@.len(),
                    rem >= 1 || n == 0,
                    start % 64 == 0,
                    out_before_chunks + chunk_text(v@) == out@ + chunk_text(
                        v@.skip(start as int),
                    ),
                decreases rem,
            {
                let head = v.as_str().substring_char(start, start + 64);
                out.push(10);
                out.push(32);
                out.extend_from_slice(head.as_bytes());
                proof {
                    let t = v@.skip(start as int);
                    assert(head@ =~= t.take(64));
                    assert(t.skip(64) =~= v@.skip(start as int + 64));
                    assert(chunk_text(t) =~= seq![10u8, 32u8] + encode_utf8(t.take(64))
                        + chunk_text(t.skip(64)));
                }
                start = start + 64;
                rem = rem - 64;
            }
            let tail = v.as_str().substring_char(start, n);
            out.push(10);
            out.push(32);
            out.extend_from_slice(tail.as_bytes());
            pos = rem as u128 + 1;
            proof {
                let t = v@.skip(start as int);
                assert(tail@ =~= t);
                assert(chunk_text(t) =~= seq![10u8, 32u8] + encode_utf8(t));
                assert(out@ =~= out_before_chunks + chunk_text(v@));
                lemma_chunk_final_skip(v@, start as int);
                assert(chunk_final_len(v@) == pos as int);
                let comma: Seq<u8> = if ix > 0 {
                    seq![44u8]
                } else {
                    Seq::<u8>::empty()
                };
                assert(values_text_from(vs, ix as int, pos_in) =~= comma + chunk_text(vs[ix as int])
                    + values_text_from(vs, ix as int + 1, chunk_final_len(vs[ix as int])));
                assert(out_in + values_text_from(vs, ix as int, pos_in) =~= out@
                    + values_text_from(vs, ix as int + 1, pos as int));
            }
        }
        ix = ix + 1;
    }
    proof {
        assert(values_text_from(vs, vs.len() as int, pos as int) =~= Seq::<u8>::empty());
        assert(out@ =~= old(out)@ + values_text_from(vs, 0, pos0));
    }
}

proof fn lemma_chunk_final_skip(v: Seq<char>, start: int)
    requires
        0 <= start <= v.len(),
        start % 64 == 0,
        v.len() - start <= 64,
        start < v.len() || v.len() == 0,
    ensures
        chunk_final_len(v) == v.len() - start + 1,
    decreases v.len(),
{
    if v.len() > 64 {
        lemma_chunk_final_skip(v.skip(64), start - 64);
    }
}

/// Appends the header section: each header on its own line, closed by
/// a blank line when the section is non-empty.
pub fn write_headers(out: &mut Vec<u8>, headers: &Vec<HeaderEntry>)
    ensures
        final(out)@ == old(out)@ + spec_headers_text(headers.deep_view()),
{
    let ghost hs = headers.deep_view();
    proof {
        crate::lemma_deep_of_vec(headers);
        assert(hs.len() == headers@.len());
    }
    if headers.len() == 0 {
        proof {
            assert(out@ =~= old(out)@ + spec_headers_text(hs));
        }
        return ;
    }
    let mut ix: usize = 0;
    while ix < headers.len()
        invariant
            0 <= ix <= hs.len(),
            hs == headers.deep_view(),
            hs.len() == headers@.len(),
            old(out)@ + headers_lines(hs, 0) == out@ + headers_lines(hs, ix as int),
        decreases hs.len() - ix,
    {
        let ghost out_in = out@;
        write_header(out, &headers[ix]);
        out.push(10);
        proof {
            assert(hs[ix as int] == headers@[ix as int]@);
            assert(headers_lines(hs, ix as int) =~= header_text(hs[ix as int]) + seq![10u8]
                + headers_lines(hs, ix as int + 1));
            assert(out_in + headers_lines(hs, ix as int) =~= out@ + headers_lines(
                hs,
                ix as int + 1,
            ));
        }
        ix = ix + 1;
    }
    out.push(10);
    proof {
        assert(headers_lines(hs, hs.len() as int) =~= Seq::<u8>::empty());
        assert(out@ =~= old(out)@ + spec_headers_text(hs));
    }
}

} // verus!
