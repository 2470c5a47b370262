//! Header entries of a PEM block: the two structured forms
//! (processing type and encryption descriptor) and the generic
//! key/value form.
use vstd::prelude::*;

use crate::parsers::{
    lemma_line_end_bounds, lemma_skip_sp_bounds, lemma_skip_spaces_only_bounds, line_end_pos,
    skip_sp, skip_spaces_only, spec_line_end, spec_skip_sp, spec_skip_spaces_only, take_string,
};
use crate::{PemParsingError, PRes};

verus! {

/// One header line of a PEM block, in the order the three forms are
/// tried by the parser.
#[derive(Debug, PartialEq)]
pub enum HeaderEntry {
    /// `Proc-Type: <digit>,<TYPE>`
    ProcType(u8, ProcTypeType),
    /// `DEK-Info: <ALGORITHM>,<HEX>`; the bytes are the decoded
    /// initialization vector.
    DEKInfo(RFC1423Algorithm, Vec<u8>),
    /// Any other `Key: v1,v2,...` line.
    Entry(String, Vec<String>),
}

/// Processing kind token of a `Proc-Type` header.
#[allow(non_camel_case_types)]
#[derive(Debug, Clone, Copy, PartialEq, Eq, Structural)]
pub enum ProcTypeType {
    ENCRYPTED,
    MIC_ONLY,
    MIC_CLEAR,
    CRL,
}

/// Symmetric algorithm token of a `DEK-Info` header.
#[allow(non_camel_case_types)]
#[derive(Debug, Clone, Copy, PartialEq, Eq, Structural)]
pub enum RFC1423Algorithm {
    DES_CBC,
    DES_EDE3_CBC,
    AES_128_CBC,
    AES_192_CBC,
    AES_256_CBC,
}

impl RFC1423Algorithm {
    /// Key size in bytes of the algorithm.
    pub open spec fn spec_key_size(self) -> usize {
        match self {
            RFC1423Algorithm::DES_CBC => 8,
            RFC1423Algorithm::DES_EDE3_CBC => 24,
            RFC1423Algorithm::AES_128_CBC => 16,
            RFC1423Algorithm::AES_192_CBC => 16,
            RFC1423Algorithm::AES_256_CBC => 16,
        }
    }

    /// Cipher block size in bytes of the algorithm.
    pub open spec fn spec_block_size(self) -> usize {
        match self {
            RFC1423Algorithm::DES_CBC => 8,
            RFC1423Algorithm::DES_EDE3_CBC => 8,
            RFC1423Algorithm::AES_128_CBC => 16,
            RFC1423Algorithm::AES_192_CBC => 16,
            RFC1423Algorithm::AES_256_CBC => 16,
        }
    }

    pub fn key_size(&self) -> (n: usize)
        ensures
            n == self.spec_key_size(),
    {
        match *self {
            RFC1423Algorithm::DES_CBC => 8,
            RFC1423Algorithm::DES_EDE3_CBC => 24,
            RFC1423Algorithm::AES_128_CBC => 16,
            RFC1423Algorithm::AES_192_CBC => 16,
            RFC1423Algorithm::AES_256_CBC => 16,
        }
    }

    pub fn block_size(&self) -> (n: usize)
        ensures
            n == self.spec_block_size(),
    {
        match *self {
            RFC1423Algorithm::DES_CBC => 8,
            RFC1423Algorithm::DES_EDE3_CBC => 8,
            RFC1423Algorithm::AES_128_CBC => 16,
            RFC1423Algorithm::AES_192_CBC => 16,
            RFC1423Algorithm::AES_256_CBC => 16,
        }
    }
}

/// True of the bytes that may stand in a header key: ASCII letters and
/// the hyphen.
pub open spec fn spec_is_pem_header_key_char(c: u8) -> bool {
    (0x41 <= c <= 0x5A) || (0x61 <= c <= 0x7A) || c == 45
}

pub fn is_pem_header_key_char(c: u8) -> (r: bool)
    ensures
        r == spec_is_pem_header_key_char(c),
{
    (c >= 0x41 && c <= 0x5A) || (c >= 0x61 && c <= 0x7A) || c == 45
}


/// Specification-level form of one header entry, with text as
/// character sequences and bytes as byte sequences.
pub ghost enum HeaderEntryView {
    ProcType { level: u8, t: ProcTypeType },
    DEKInfo { alg: RFC1423Algorithm, iv: Seq<u8> },
    Entry { key: Seq<char>, values: Seq<Seq<char>> },
}

impl View for HeaderEntry {
    type V = HeaderEntryView;

    open spec fn view(&self) -> HeaderEntryView {
        match self {
            HeaderEntry::ProcType(l, t) => HeaderEntryView::ProcType { level: *l, t: *t },
            HeaderEntry::DEKInfo(a, iv) => HeaderEntryView::DEKInfo { alg: *a, iv: iv@ },
            HeaderEntry::Entry(k, vs) => HeaderEntryView::Entry {
                key: k@,
                values: vs.deep_view(),
            },
        }
    }
}

impl DeepView for HeaderEntry {
    type V = HeaderEntryView;

    open spec fn deep_view(&self) -> HeaderEntryView {
        self.view()
    }
}


/// True when the literal `Proc-Type:` stands at `i`.
pub open spec fn tag_proc_type(s: Seq<u8>, i: int) -> bool {
    &&& i + 10 <= s.len()
    &&& s[i] == 80
    &&& s[i + 1] == 114
    &&& s[i + 2] == 111
    &&& s[i + 3] == 99
    &&& s[i + 4] == 45
    &&& s[i + 5] == 84
    &&& s[i + 6] == 121
    &&& s[i + 7] == 112
    &&& s[i + 8] == 101
    &&& s[i + 9] == 58
}

/// True when the literal `DEK-Info:` stands at `i`.
pub open spec fn tag_dek_info(s: Seq<u8>, i: int) -> bool {
    &&& i + 9 <= s.len()
    &&& s[i] == 68
    &&& s[i + 1] == 69
    &&& s[i + 2] == 75
    &&& s[i + 3] == 45
    &&& s[i + 4] == 73
    &&& s[i + 5] == 110
    &&& s[i + 6] == 102
    &&& s[i + 7] == 111
    &&& s[i + 8] == 58
}

/// True when the literal `ENCRYPTED` stands at `i`.
pub open spec fn tag_encrypted(s: Seq<u8>, i: int) -> bool {
    &&& i + 9 <= s.len()
    &&& s[i] == 69
    &&& s[i + 1] == 78
    &&& s[i + 2] == 67
    &&& s[i + 3] == 82
    &&& s[i + 4] == 89
    &&& s[i + 5] == 80
    &&& s[i + 6] == 84
    &&& s[i + 7] == 69
    &&& s[i + 8] == 68
}

/// True when the literal `MIC-ONLY` stands at `i`.
pub open spec fn tag_mic_only(s: Seq<u8>, i: int) -> bool {
    &&& i + 8 <= s.len()
    &&& s[i] == 77
    &&& s[i + 1] == 73
    &&& s[i + 2] == 67
    &&& s[i + 3] == 45
    &&& s[i + 4] == 79
    &&& s[i + 5] == 78
    &&& s[i + 6] == 76
    &&& s[i + 7] == 89
}

/// True when the literal `MIC-CLEAR` stands at `i`.
pub open spec fn tag_mic_clear(s: Seq<u8>, i: int) -> bool {
    &&& i + 9 <= s.len()
    &&& s[i] == 77
    &&& s[i + 1] == 73
    &&& s[i + 2] == 67
    &&& s[i + 3] == 45
    &&& s[i + 4] == 67
    &&& s[i + 5] == 76
    &&& s[i + 6] == 69
    &&& s[i + 7] == 65
    &&& s[i + 8] == 82
}

/// True when the literal `CRL` stands at `i`.
pub open spec fn tag_crl(s: Seq<u8>, i: int) -> bool {
    &&& i + 3 <= s.len()
    &&& s[i] == 67
    &&& s[i + 1] == 82
    &&& s[i + 2] == 76
}

/// True when the literal `DES-CBC` stands at `i`.
pub open spec fn tag_des_cbc(s: Seq<u8>, i: int) -> bool {
    &&& i + 7 <= s.len()
    &&& s[i] == 68
    &&& s[i + 1] == 69
    &&& s[i + 2] == 83
    &&& s[i + 3] == 45
    &&& s[i + 4] == 67
    &&& s[i + 5] == 66
    &&& s[i + 6] == 67
}

/// True when the literal `DES-EDE3-CBC` stands at `i`.
pub open spec fn tag_des_ede3_cbc(s: Seq<u8>, i: int) -> bool {
    &&& i + 12 <= s.len()
    &&& s[i] == 68
    &&& s[i + 1] == 69
    &&& s[i + 2] == 83
    &&& s[i + 3] == 45
    &&& s[i + 4] == 69
    &&& s[i + 5] == 68
    &&& s[i + 6] == 69
    &&& s[i + 7] == 51
    &&& s[i + 8] == 45
    &&& s[i + 9] == 67
    &&& s[i + 10] == 66
    &&& s[i + 11] == 67
}

/// True when the literal `AES-128-CBC` stands at `i`.
pub open spec fn tag_aes_128_cbc(s: Seq<u8>, i: int) -> bool {
    &&& i + 11 <= s.len()
    &&& s[i] == 65
    &&& s[i + 1] == 69
    &&& s[i + 2] == 83
    &&& s[i + 3] == 45
    &&& s[i + 4] == 49
    &&& s[i + 5] == 50
    &&& s[i + 6] == 56
    &&& s[i + 7] == 45
    &&& s[i + 8] == 67
    &&& s[i + 9] == 66
    &&& s[i + 10] == 67
}

/// True when the literal `AES-192-CBC` stands at `i`.
pub open spec fn tag_aes_192_cbc(s: Seq<u8>, i: int) -> bool {
    &&& i + 11 <= s.len()
    &&& s[i] == 65
    &&& s[i + 1] == 69
    &&& s[i + 2] == 83
    &&& s[i + 3] == 45
    &&& s[i + 4] == 49
    &&& s[i + 5] == 57
    &&& s[i + 6] == 50
    &&& s[i + 7] == 45
    &&& s[i + 8] == 67
    &&& s[i + 9] == 66
    &&& s[i + 10] == 67
}

/// True when the literal `AES-256-CBC` stands at `i`.
pub open spec fn tag_aes_256_cbc(s: Seq<u8>, i: int) -> bool {
    &&& i + 11 <= s.len()
    &&& s[i] == 65
    &&& s[i + 1] == 69
    &&& s[i + 2] == 83
    &&& s[i + 3] == 45
    &&& s[i + 4] == 50
    &&& s[i + 5] == 53
    &&& s[i + 6] == 54
    &&& s[i + 7] == 45
    &&& s[i + 8] == 67
    &&& s[i + 9] == 66
    &&& s[i + 10] == 67
}

fn match_tag_proc_type(input: &[u8], from: usize) -> (r: bool)
    requires
        from <= input@.len(),
    ensures
        r == tag_proc_type(input@, from as int),
{
    input.len() - from >= 10 && input[from] == 80 && input[from + 1] == 114 && input[from + 2] == 111 && input[from + 3] == 99 && input[from + 4] == 45 && input[from + 5] == 84 && input[from + 6] == 121 && input[from + 7] == 112 && input[from + 8] == 101 && input[from + 9] == 58
}

fn match_tag_dek_info(input: &[u8], from: usize) -> (r: bool)
    requires
        from <= input@.len(),
    ensures
        r == tag_dek_info(input@, from as int),
{
    input.len() - from >= 9 && input[from] == 68 && input[from + 1] == 69 && input[from + 2] == 75 && input[from + 3] == 45 && input[from + 4] == 73 && input[from + 5] == 110 && input[from + 6] == 102 && input[from + 7] == 111 && input[from + 8] == 58
}

fn match_tag_encrypted(input: &[u8], from: usize) -> (r: bool)
    requires
        from <= input@.len(),
    ensures
        r == tag_encrypted(input@, from as int),
{
    input.len() - from >= 9 && input[from] == 69 && input[from + 1] == 78 && input[from + 2] == 67 && input[from + 3] == 82 && input[from + 4] == 89 && input[from + 5] == 80 && input[from + 6] == 84 && input[from + 7] == 69 && input[from + 8] == 68
}

fn match_tag_mic_only(input: &[u8], from: usize) -> (r: bool)
    requires
        from <= input@.len(),
    ensures
        r == tag_mic_only(input@, from as int),
{
    input.len() - from >= 8 && input[from] == 77 && input[from + 1] == 73 && input[from + 2] == 67 && input[from + 3] == 45 && input[from + 4] == 79 && input[from + 5] == 78 && input[from + 6] == 76 && input[from + 7] == 89
}

fn match_tag_mic_clear(input: &[u8], from: usize) -> (r: bool)
    requires
        from <= input@.len(),
    ensures
        r == tag_mic_clear(input@, from as int),
{
    input.len() - from >= 9 && input[from] == 77 && input[from + 1] == 73 && input[from + 2] == 67 && input[from + 3] == 45 && input[from + 4] == 67 && input[from + 5] == 76 && input[from + 6] == 69 && input[from + 7] == 65 && input[from + 8] == 82
}

fn match_tag_crl(input: &[u8], from: usize) -> (r: bool)
    requires
        from <= input@.len(),
    ensures
        r == tag_crl(input@, from as int),
{
    input.len() - from >= 3 && input[from] == 67 && input[from + 1] == 82 && input[from + 2] == 76
}

fn match_tag_des_cbc(input: &[u8], from: usize) -> (r: bool)
    requires
        from <= input@.len(),
    ensures
        r == tag_des_cbc(input@, from as int),
{
    input.len() - from >= 7 && input[from] == 68 && input[from + 1] == 69 && input[from + 2] == 83 && input[from + 3] == 45 && input[from + 4] == 67 && input[from + 5] == 66 && input[from + 6] == 67
}

fn match_tag_des_ede3_cbc(input: &[u8], from: usize) -> (r: bool)
    requires
        from <= input@.len(),
    ensures
        r == tag_des_ede3_cbc(input@, from as int),
{
    input.len() - from >= 12 && input[from] == 68 && input[from + 1] == 69 && input[from + 2] == 83 && input[from + 3] == 45 && input[from + 4] == 69 && input[from + 5] == 68 && input[from + 6] == 69 && input[from + 7] == 51 && input[from + 8] == 45 && input[from + 9] == 67 && input[from + 10] == 66 && input[from + 11] == 67
}

fn match_tag_aes_128_cbc(input: &[u8], from: usize) -> (r: bool)
    requires
        from <= input@.len(),
    ensures
        r == tag_aes_128_cbc(input@, from as int),
{
    input.len() - from >= 11 && input[from] == 65 && input[from + 1] == 69 && input[from + 2] == 83 && input[from + 3] == 45 && input[from + 4] == 49 && input[from + 5] == 50 && input[from + 6] == 56 && input[from + 7] == 45 && input[from + 8] == 67 && input[from + 9] == 66 && input[from + 10] == 67
}

fn match_tag_aes_192_cbc(input: &[u8], from: usize) -> (r: bool)
    requires
        from <= input@.len(),
    ensures
        r == tag_aes_192_cbc(input@, from as int),
{
    input.len() - from >= 11 && input[from] == 65 && input[from + 1] == 69 && input[from + 2] == 83 && input[from + 3] == 45 && input[from + 4] == 49 && input[from + 5] == 57 && input[from + 6] == 50 && input[from + 7] == 45 && input[from + 8] == 67 && input[from + 9] == 66 && input[from + 10] == 67
}

fn match_tag_aes_256_cbc(input: &[u8], from: usize) -> (r: bool)
    requires
        from <= input@.len(),
    ensures
        r == tag_aes_256_cbc(input@, from as int),
{
    input.len() - from >= 11 && input[from] == 65 && input[from + 1] == 69 && input[from + 2] == 83 && input[from + 3] == 45 && input[from + 4] == 50 && input[from + 5] == 53 && input[from + 6] == 54 && input[from + 7] == 45 && input[from + 8] == 67 && input[from + 9] == 66 && input[from + 10] == 67
}

/// True of ASCII hexadecimal digit bytes.
pub open spec fn is_hex_digit(b: u8) -> bool {
    (48 <= b <= 57) || (65 <= b <= 70) || (97 <= b <= 102)
}

/// The value of a hexadecimal digit byte.
pub open spec fn hex_val(b: u8) -> int
    recommends
        is_hex_digit(b),
{
    if 48 <= b <= 57 {
        b - 48
    } else if 65 <= b <= 70 {
        b - 55
    } else {
        b - 87
    }
}

/// Position of the first byte at or after `i` that is not a
/// hexadecimal digit.
pub open spec fn spec_hex_end(s: Seq<u8>, i: int) -> int
    decreases s.len() - i,
    when 0 <= i <= s.len()
{
    if i < s.len() && is_hex_digit(s[i]) {
        spec_hex_end(s, i + 1)
    } else {
        i
    }
}

pub proof fn lemma_hex_end_bounds(s: Seq<u8>, i: int)
    requires
        0 <= i <= s.len(),
    ensures
        i <= spec_hex_end(s, i) <= s.len(),
    decreases s.len() - i,
{
    if i < s.len() && is_hex_digit(s[i]) {
        lemma_hex_end_bounds(s, i + 1);
    }
}

/// The bytes encoded by the hexadecimal digit pairs in `[i, e)`, high
/// nibble first; a trailing unpaired digit contributes nothing.
pub open spec fn spec_hex_bytes(s: Seq<u8>, i: int, e: int) -> Seq<u8>
    decreases e - i,
    when 0 <= i && i <= e <= s.len()
{
    if i + 2 <= e {
        seq![(hex_val(s[i]) * 16 + hex_val(s[i + 1])) as u8] + spec_hex_bytes(s, i + 2, e)
    } else {
        Seq::empty()
    }
}

/// Finds the end of the hexadecimal digit run starting at `from`.
fn hex_end_pos(input: &[u8], from: usize) -> (r: usize)
    requires
        from <= input@.len(),
    ensures
        r == spec_hex_end(input@, from as int),
        from <= r <= input@.len(),
        forall|k: int| from <= k < r ==> is_hex_digit(input@[k]),
{
    let mut i = from;
    while i < input.len() && ((input[i] >= 48 && input[i] <= 57) || (input[i] >= 65 && input[i]
        <= 70) || (input[i] >= 97 && input[i] <= 102))
        invariant
            from <= i <= input@.len(),
            spec_hex_end(input@, from as int) == spec_hex_end(input@, i as int),
            forall|k: int| from <= k < i ==> is_hex_digit(input@[k]),
        decreases input@.len() - i,
    {
        i = i + 1;
    }
    i
}

/// The value of one hexadecimal digit byte.
fn hex_digit(b: u8) -> (v: u8)
    requires
        is_hex_digit(b),
    ensures
        v as int == hex_val(b),
        v < 16,
{
    if b >= 48 && b <= 57 {
        b - 48
    } else if b >= 65 && b <= 70 {
        b - 55
    } else {
        b - 87
    }
}

/// Decodes the run of hexadecimal digit pairs at `from` into bytes,
/// high nibble first. An odd number of digits is an error; the
/// position returned is just after the digit run.
pub fn parse_hex(input: &[u8], from: usize) -> (r: Result<(Vec<u8>, usize), PemParsingError>)
    requires
        from <= input@.len(),
    ensures
        ({
            let he = spec_hex_end(input@, from as int);
            if (he - from) % 2 == 1 {
                r == Err::<(Vec<u8>, usize), PemParsingError>(PemParsingError::HexDecodeError)
            } else {
                r matches Ok(p) && p.0@ == spec_hex_bytes(input@, from as int, he) && p.1 == he
                    && from <= p.1 <= input@.len()
            }
        }),
{
    let ghost s = input@;
    let e = hex_end_pos(input, from);
    if (e - from) % 2 == 1 {
        return Err(PemParsingError::HexDecodeError);
    }
    let mut out: Vec<u8> = Vec::new();
    let mut i = from;
    while i < e
        invariant
            from <= i <= e <= s.len(),
            (e - i) % 2 == 0,
            forall|k: int| from <= k < e ==> is_hex_digit(s[k]),
            spec_hex_bytes(s, from as int, e as int) == out@ + spec_hex_bytes(
                s,
                i as int,
                e as int,
            ),
        decreases e - i,
    {
        let hi = hex_digit(input[i]);
        let lo = hex_digit(input[i + 1]);
        out.push(hi * 16 + lo);
        i = i + 2;
    }
    proof {
        assert(spec_hex_bytes(s, i as int, e as int) =~= Seq::<u8>::empty());
        assert(out@ =~= out@ + Seq::<u8>::empty());
    }
    Ok((out, e))
}

/// Position of the first byte at or after `i` that cannot stand in a
/// header key.
pub open spec fn spec_key_end(s: Seq<u8>, i: int) -> int
    decreases s.len() - i,
    when 0 <= i <= s.len()
{
    if i < s.len() && spec_is_pem_header_key_char(s[i]) {
        spec_key_end(s, i + 1)
    } else {
        i
    }
}

pub proof fn lemma_key_end_bounds(s: Seq<u8>, i: int)
    requires
        0 <= i <= s.len(),
    ensures
        i <= spec_key_end(s, i) <= s.len(),
    decreases s.len() - i,
{
    if i < s.len() && spec_is_pem_header_key_char(s[i]) {
        lemma_key_end_bounds(s, i + 1);
    }
}

/// Finds the end of the header-key character run starting at `from`.
fn key_end_pos(input: &[u8], from: usize) -> (r: usize)
    requires
        from <= input@.len(),
    ensures
        r == spec_key_end(input@, from as int),
        from <= r <= input@.len(),
{
    let mut i = from;
    while i < input.len() && is_pem_header_key_char(input[i])
        invariant
            from <= i <= input@.len(),
            spec_key_end(input@, from as int) == spec_key_end(input@, i as int),
        decreases input@.len() - i,
    {
        i = i + 1;
    }
    i
}


/// The folded continuation lines that follow a header value's first
/// line: each continuation line begins with a space, and its content
/// after the leading spaces is appended with no separator.
pub open spec fn spec_value_lines(s: Seq<u8>, j: int) -> PRes<Seq<u8>>
    decreases s.len() - j,
    when 0 <= j <= s.len()
    via spec_value_lines_dec
{
    if j < s.len() && s[j] == 32 {
        let q = spec_skip_spaces_only(s, j);
        let le = spec_line_end(s, q);
        if le >= s.len() {
            PRes::Failed { e: PemParsingError::IncompleteInput }
        } else {
            match spec_value_lines(s, le + 1) {
                PRes::Parsed { v, next } => PRes::Parsed { v: s.subrange(q, le) + v, next },
                PRes::Failed { e } => PRes::Failed { e },
            }
        }
    } else {
        PRes::Parsed { v: Seq::empty(), next: j }
    }
}

#[via_fn]
proof fn spec_value_lines_dec(s: Seq<u8>, j: int) {
    if 0 <= j <= s.len() && j < s.len() && s[j] == 32 {
        lemma_skip_spaces_only_bounds(s, j);
        lemma_line_end_bounds(s, spec_skip_spaces_only(s, j));
    }
}

pub proof fn lemma_value_lines_bounds(s: Seq<u8>, j: int)
    requires
        0 <= j <= s.len(),
    ensures
        spec_value_lines(s, j) matches PRes::Parsed { v, next } ==> j <= next <= s.len(),
    decreases s.len() - j,
{
    if j < s.len() && s[j] == 32 {
        let q = spec_skip_spaces_only(s, j);
        lemma_skip_spaces_only_bounds(s, j);
        let le = spec_line_end(s, q);
        lemma_line_end_bounds(s, q);
        if le < s.len() {
            lemma_value_lines_bounds(s, le + 1);
        }
    }
}

/// A header value at `i`: the first line to its LF, then any folded
/// continuation lines. Yields the folded raw value bytes and the
/// position after the last line's LF.
pub open spec fn spec_header_value(s: Seq<u8>, i: int) -> PRes<Seq<u8>> {
    let le = spec_line_end(s, i);
    if le >= s.len() {
        PRes::Failed { e: PemParsingError::IncompleteInput }
    } else {
        match spec_value_lines(s, le + 1) {
            PRes::Parsed { v, next } => PRes::Parsed { v: s.subrange(i, le) + v, next },
            PRes::Failed { e } => PRes::Failed { e },
        }
    }
}

pub proof fn lemma_header_value_bounds(s: Seq<u8>, i: int)
    requires
        0 <= i <= s.len(),
    ensures
        spec_header_value(s, i) matches PRes::Parsed { v, next } ==> i < next <= s.len(),
{
    let le = spec_line_end(s, i);
    lemma_line_end_bounds(s, i);
    if le < s.len() {
        lemma_value_lines_bounds(s, le + 1);
    }
}

/// Reads a header value at `from`: the rest of the line, folded with
/// any space-led continuation lines.
fn parse_header_value(input: &[u8], from: usize) -> (r: Result<(Vec<u8>, usize), PemParsingError>)
    requires
        from <= input@.len(),
    ensures
        match spec_header_value(input@, from as int) {
            PRes::Parsed { v, next } => r matches Ok(p) && p.0@ == v && p.1 == next && from < p.1
                <= input@.len(),
            PRes::Failed { e } => r == Err::<(Vec<u8>, usize), PemParsingError>(e),
        },
{
    let ghost s = input@;
    let le = line_end_pos(input, from);
    if le >= input.len() {
        return Err(PemParsingError::IncompleteInput);
    }
    let mut val: Vec<u8> = vstd::slice::slice_to_vec(vstd::slice::slice_subrange(input, from, le));
    let ghost first = s.subrange(from as int, le as int);
    let ghost start: int = le + 1;
    let ghost mut collected: Seq<u8> = Seq::empty();
    let mut j: usize = le + 1;
    proof {
        assert(val@ =~= first + collected);
    }
    loop
        invariant
            start <= j <= s.len(),
            0 <= from,
            from <= s.len(),
            le == spec_line_end(s, from as int),
            le < s.len(),
            start == le + 1,
            val@ == first + collected,
            first == s.subrange(from as int, le as int),
            match spec_value_lines(s, j as int) {
                PRes::Parsed { v, next } => spec_value_lines(s, start) == (PRes::<Seq<u8>>::Parsed {
                    v: collected + v,
                    next,
                }),
                PRes::Failed { e } => spec_value_lines(s, start) == (PRes::<Seq<u8>>::Failed { e }),
            },
        decreases s.len() - j,
    {
        if !(j < input.len() && input[j] == 32) {
            proof {
                assert(spec_value_lines(s, j as int) == (PRes::<Seq<u8>>::Parsed {
                    v: Seq::<u8>::empty(),
                    next: j as int,
                }));
                assert(collected + Seq::<u8>::empty() =~= collected);
            }
            return Ok((val, j));
        }
        let q = skip_spaces_only(input, j);
        let le2 = line_end_pos(input, q);
        if le2 >= input.len() {
            return Err(PemParsingError::IncompleteInput);
        }
        val.extend_from_slice(vstd::slice::slice_subrange(input, q, le2));
        proof {
            let piece = s.subrange(q as int, le2 as int);
            let old_collected = collected;
            collected = collected + piece;
            assert(val@ =~= first + collected);
            match spec_value_lines(s, le2 + 1) {
                PRes::Parsed { v, next } => {
                    assert(old_collected + (piece + v) =~= collected + v);
                },
                PRes::Failed { e } => {},
            }
        }
        j = le2 + 1;
    }
}

/// Position of the first comma at or after `i` in a value, or the end.
pub open spec fn spec_comma_end(v: Seq<u8>, i: int) -> int
    decreases v.len() - i,
    when 0 <= i <= v.len()
{
    if i < v.len() && v[i] != 44 {
        spec_comma_end(v, i + 1)
    } else {
        i
    }
}

pub proof fn lemma_comma_end_bounds(v: Seq<u8>, i: int)
    requires
        0 <= i <= v.len(),
    ensures
        i <= spec_comma_end(v, i) <= v.len(),
    decreases v.len() - i,
{
    if i < v.len() && v[i] != 44 {
        lemma_comma_end_bounds(v, i + 1);
    }
}

/// The comma-separated pieces of `v` from `i` on: splitting happens
/// after folding, and empty pieces are kept.
pub open spec fn spec_split_from(v: Seq<u8>, i: int) -> Seq<Seq<u8>>
    decreases v.len() - i,
    when 0 <= i <= v.len()
    via spec_split_from_dec
{
    let ce = spec_comma_end(v, i);
    if ce >= v.len() {
        seq![v.subrange(i, v.len() as int)]
    } else {
        seq![v.subrange(i, ce)] + spec_split_from(v, ce + 1)
    }
}

#[via_fn]
proof fn spec_split_from_dec(v: Seq<u8>, i: int) {
    if 0 <= i <= v.len() {
        lemma_comma_end_bounds(v, i);
    }
}

/// The comma-separated pieces of a folded value.
pub open spec fn spec_split_commas(v: Seq<u8>) -> Seq<Seq<u8>> {
    spec_split_from(v, 0)
}

/// True when every piece is valid UTF-8.
pub open spec fn pieces_valid(ps: Seq<Seq<u8>>) -> bool {
    forall|k: int| 0 <= k < ps.len() ==> vstd::utf8::valid_utf8(#[trigger] ps[k])
}

/// The pieces decoded to character sequences.
pub open spec fn pieces_chars(ps: Seq<Seq<u8>>) -> Seq<Seq<char>> {
    Seq::new(ps.len(), |k: int| vstd::utf8::decode_utf8(ps[k]))
}

/// Finds the next comma from `from` in `val`, or the end.
fn comma_end_pos(val: &[u8], from: usize) -> (r: usize)
    requires
        from <= val@.len(),
    ensures
        r == spec_comma_end(val@, from as int),
        from <= r <= val@.len(),
{
    let mut i = from;
    while i < val.len() && val[i] != 44
        invariant
            from <= i <= val@.len(),
            spec_comma_end(val@, from as int) == spec_comma_end(val@, i as int),
        decreases val@.len() - i,
    {
        i = i + 1;
    }
    i
}

/// Splits a folded value on commas into owned strings; fails when a
/// piece is not valid UTF-8.
fn split_value(val: &[u8]) -> (r: Result<Vec<String>, PemParsingError>)
    ensures
        ({
            let ps = spec_split_commas(val@);
            &&& (r is Ok <==> pieces_valid(ps))
            &&& (r matches Ok(vs) ==> vs.deep_view() == pieces_chars(ps))
            &&& (r is Err ==> r == Err::<Vec<String>, PemParsingError>(
                PemParsingError::InvalidText,
            ))
        }),
{
    let ghost v = val@;
    let ghost ps = spec_split_commas(v);
    let mut out: Vec<String> = Vec::new();
    let ghost mut done: Seq<Seq<u8>> = Seq::empty();
    let mut i: usize = 0;
    let mut ce = comma_end_pos(val, 0);
    while ce < val.len()
        invariant
            0 <= i <= v.len(),
            i <= ce <= v.len(),
            ce == spec_comma_end(v, i as int),
            ps == done + spec_split_from(v, i as int),
            pieces_valid(done),
            out.deep_view() == pieces_chars(done),
            out@.len() == done.len(),
        decreases v.len() - i,
    {
        match take_string(val, i, ce) {
            Some(t) => {
                let ghost old_out_seq = out@;
                let ghost old_dv = out.deep_view();
                let ghost old_done = done;
                out.push(t);
                proof {
                    let piece = v.subrange(i as int, ce as int);
                    assert(spec_split_from(v, i as int) == seq![piece] + spec_split_from(
                        v,
                        ce + 1,
                    ));
                    done = done.push(piece);
                    assert(ps =~= done + spec_split_from(v, ce + 1));
                    assert forall|k: int| 0 <= k < done.len() implies #[trigger] out.deep_view()[k]
                        == pieces_chars(done)[k] by {
                        if k < done.len() - 1 {
                            assert(out@[k] == old_out_seq[k]);
                            assert(out.deep_view()[k] == old_dv[k]);
                            assert(old_dv[k] == pieces_chars(old_done)[k]);
                            assert(pieces_chars(done)[k] == pieces_chars(old_done)[k]);
                        } else {
                            assert(out@[k] == t);
                            assert(pieces_chars(done)[k] == vstd::utf8::decode_utf8(piece));
                        }
                    }
                    assert(out.deep_view() =~= pieces_chars(done));
                }
            },
            None => {
                proof {
                    let piece = v.subrange(i as int, ce as int);
                    assert(spec_split_from(v, i as int)[0] == piece);
                    assert(ps[done.len() as int] == piece);
                    assert(!pieces_valid(ps));
                }
                return Err(PemParsingError::InvalidText);
            },
        }
        i = ce + 1;
        ce = comma_end_pos(val, i);
    }
    match take_string(val, i, val.len()) {
        Some(t) => {
            let ghost old_out_seq = out@;
            let ghost old_dv = out.deep_view();
            let ghost old_done = done;
            out.push(t);
            proof {
                let piece = v.subrange(i as int, v.len() as int);
                assert(spec_split_from(v, i as int) =~= seq![piece]);
                done = done.push(piece);
                assert(ps =~= done);
                assert forall|k: int| 0 <= k < done.len() implies #[trigger] out.deep_view()[k]
                    == pieces_chars(done)[k] by {
                    if k < done.len() - 1 {
                        assert(out@[k] == old_out_seq[k]);
                        assert(out.deep_view()[k] == old_dv[k]);
                        assert(old_dv[k] == pieces_chars(old_done)[k]);
                        assert(pieces_chars(done)[k] == pieces_chars(old_done)[k]);
                    } else {
                        assert(out@[k] == t);
                        assert(pieces_chars(done)[k] == vstd::utf8::decode_utf8(piece));
                    }
                }
                assert(out.deep_view() =~= pieces_chars(done));
            }
            Ok(out)
        },
        None => {
            proof {
                let piece = v.subrange(i as int, v.len() as int);
                assert(spec_split_from(v, i as int)[0] == piece);
                assert(ps[done.len() as int] == piece);
                assert(!pieces_valid(ps));
            }
            Err(PemParsingError::InvalidText)
        },
    }
}

/// Outcome of trying one header form at a position: a match with the
/// entry and the next position, no match (the next form is tried, or
/// the header section ends), or a hard failure.
pub ghost enum HMatch {
    Matched { h: HeaderEntryView, next: int },
    NoMatch,
    Failed { e: PemParsingError },
}

/// The tail of a `Proc-Type` header after its type token: the rest of
/// the line (folded like any value) is read and discarded.
pub open spec fn spec_proc_type_tail(s: Seq<u8>, level: u8, t: ProcTypeType, k: int) -> HMatch {
    match spec_header_value(s, k) {
        PRes::Parsed { v, next } => HMatch::Matched {
            h: HeaderEntryView::ProcType { level, t },
            next,
        },
        PRes::Failed { e } => HMatch::Failed { e },
    }
}

/// `Proc-Type: <digit>,<TYPE>`: the form tried first.
pub open spec fn spec_proc_type(s: Seq<u8>, i: int) -> HMatch
    recommends
        0 <= i <= s.len(),
{
    if !tag_proc_type(s, i) {
        HMatch::NoMatch
    } else {
        let j = spec_skip_sp(s, i + 10);
        if j >= s.len() {
            HMatch::Failed { e: PemParsingError::IncompleteInput }
        } else if !(48 <= s[j] <= 57) {
            HMatch::NoMatch
        } else if j + 1 >= s.len() {
            HMatch::Failed { e: PemParsingError::IncompleteInput }
        } else if s[j + 1] != 44 {
            HMatch::NoMatch
        } else {
            let level = (s[j] - 48) as u8;
            let k = j + 2;
            if tag_encrypted(s, k) {
                spec_proc_type_tail(s, level, ProcTypeType::ENCRYPTED, k + 9)
            } else if tag_mic_only(s, k) {
                spec_proc_type_tail(s, level, ProcTypeType::MIC_ONLY, k + 8)
            } else if tag_mic_clear(s, k) {
                spec_proc_type_tail(s, level, ProcTypeType::MIC_CLEAR, k + 9)
            } else if tag_crl(s, k) {
                spec_proc_type_tail(s, level, ProcTypeType::CRL, k + 3)
            } else {
                HMatch::NoMatch
            }
        }
    }
}

/// The tail of a `DEK-Info` header after its algorithm token: a comma,
/// the hexadecimal IV, and the rest of the line discarded.
pub open spec fn spec_dek_tail(s: Seq<u8>, alg: RFC1423Algorithm, k: int) -> HMatch
    recommends
        0 <= k <= s.len(),
{
    if k >= s.len() {
        HMatch::Failed { e: PemParsingError::IncompleteInput }
    } else if s[k] != 44 {
        HMatch::NoMatch
    } else {
        let h0 = k + 1;
        let he = spec_hex_end(s, h0);
        if (he - h0) % 2 == 1 {
            HMatch::Failed { e: PemParsingError::HexDecodeError }
        } else {
            let le = spec_line_end(s, he);
            if le >= s.len() {
                HMatch::Failed { e: PemParsingError::IncompleteInput }
            } else {
                HMatch::Matched {
                    h: HeaderEntryView::DEKInfo { alg, iv: spec_hex_bytes(s, h0, he) },
                    next: le + 1,
                }
            }
        }
    }
}

/// `DEK-Info: <ALGORITHM>,<HEX>`: the form tried second.
pub open spec fn spec_dek_info(s: Seq<u8>, i: int) -> HMatch
    recommends
        0 <= i <= s.len(),
{
    if !tag_dek_info(s, i) {
        HMatch::NoMatch
    } else {
        let j = spec_skip_sp(s, i + 9);
        if tag_des_cbc(s, j) {
            spec_dek_tail(s, RFC1423Algorithm::DES_CBC, j + 7)
        } else if tag_des_ede3_cbc(s, j) {
            spec_dek_tail(s, RFC1423Algorithm::DES_EDE3_CBC, j + 12)
        } else if tag_aes_128_cbc(s, j) {
            spec_dek_tail(s, RFC1423Algorithm::AES_128_CBC, j + 11)
        } else if tag_aes_192_cbc(s, j) {
            spec_dek_tail(s, RFC1423Algorithm::AES_192_CBC, j + 11)
        } else if tag_aes_256_cbc(s, j) {
            spec_dek_tail(s, RFC1423Algorithm::AES_256_CBC, j + 11)
        } else {
            HMatch::NoMatch
        }
    }
}

/// `Key: v1,v2,...`: the catch-all form.
pub open spec fn spec_generic(s: Seq<u8>, i: int) -> HMatch
    recommends
        0 <= i <= s.len(),
{
    let ke = spec_key_end(s, i);
    if ke >= s.len() {
        HMatch::Failed { e: PemParsingError::IncompleteInput }
    } else if s[ke] != 58 {
        HMatch::NoMatch
    } else {
        let j = spec_skip_sp(s, ke + 1);
        match spec_header_value(s, j) {
            PRes::Failed { e } => HMatch::Failed { e },
            PRes::Parsed { v, next } => {
                let key = s.subrange(i, ke);
                if !vstd::utf8::valid_utf8(key) {
                    HMatch::Failed { e: PemParsingError::InvalidText }
                } else {
                    let ps = spec_split_commas(v);
                    if !pieces_valid(ps) {
                        HMatch::Failed { e: PemParsingError::InvalidText }
                    } else {
                        HMatch::Matched {
                            h: HeaderEntryView::Entry {
                                key: vstd::utf8::decode_utf8(key),
                                values: pieces_chars(ps),
                            },
                            next,
                        }
                    }
                }
            },
        }
    }
}

/// One header line at `i`: the three forms tried in their fixed
/// priority order, falling through on a non-match.
pub open spec fn spec_header(s: Seq<u8>, i: int) -> HMatch
    recommends
        0 <= i <= s.len(),
{
    match spec_proc_type(s, i) {
        HMatch::NoMatch => match spec_dek_info(s, i) {
            HMatch::NoMatch => spec_generic(s, i),
            m => m,
        },
        m => m,
    }
}

/// A matched header always consumes at least one byte and stays in
/// the buffer.
pub proof fn lemma_header_advances(s: Seq<u8>, i: int)
    requires
        0 <= i <= s.len(),
    ensures
        spec_header(s, i) matches HMatch::Matched { h, next } ==> i < next <= s.len(),
{
    if tag_proc_type(s, i) {
        lemma_skip_sp_bounds(s, i + 10);
        let j = spec_skip_sp(s, i + 10);
        if j < s.len() && 48 <= s[j] <= 57 && j + 1 < s.len() && s[j + 1] == 44 {
            let k = j + 2;
            if tag_encrypted(s, k) {
                lemma_header_value_bounds(s, k + 9);
            } else if tag_mic_only(s, k) {
                lemma_header_value_bounds(s, k + 8);
            } else if tag_mic_clear(s, k) {
                lemma_header_value_bounds(s, k + 9);
            } else if tag_crl(s, k) {
                lemma_header_value_bounds(s, k + 3);
            }
        }
    }
    if tag_dek_info(s, i) {
        lemma_skip_sp_bounds(s, i + 9);
        let j = spec_skip_sp(s, i + 9);
        lemma_dek_tail_advances(s, RFC1423Algorithm::DES_CBC, j + 7, i);
        lemma_dek_tail_advances(s, RFC1423Algorithm::DES_EDE3_CBC, j + 12, i);
        lemma_dek_tail_advances(s, RFC1423Algorithm::AES_128_CBC, j + 11, i);
        lemma_dek_tail_advances(s, RFC1423Algorithm::AES_192_CBC, j + 11, i);
        lemma_dek_tail_advances(s, RFC1423Algorithm::AES_256_CBC, j + 11, i);
    }
    lemma_key_end_bounds(s, i);
    let ke = spec_key_end(s, i);
    if ke < s.len() && s[ke] == 58 {
        lemma_skip_sp_bounds(s, ke + 1);
        lemma_header_value_bounds(s, spec_skip_sp(s, ke + 1));
    }
}

proof fn lemma_dek_tail_advances(s: Seq<u8>, alg: RFC1423Algorithm, k: int, i: int)
    requires
        0 <= i < k,
    ensures
        k <= s.len() ==> (spec_dek_tail(s, alg, k) matches HMatch::Matched { h, next } ==> i < next
            <= s.len()),
{
    if k < s.len() && s[k] == 44 {
        lemma_hex_end_bounds(s, k + 1);
        lemma_line_end_bounds(s, spec_hex_end(s, k + 1));
    }
}

/// Tries the `Proc-Type` form at `from`.
fn parse_proc_type(input: &[u8], from: usize) -> (r: Result<
    Option<(HeaderEntry, usize)>,
    PemParsingError,
>)
    requires
        from <= input@.len(),
    ensures
        match spec_proc_type(input@, from as int) {
            HMatch::Matched { h, next } => r matches Ok(o) && o matches Some(p) && p.0@ == h && p.1
                == next,
            HMatch::NoMatch => r == Ok::<Option<(HeaderEntry, usize)>, PemParsingError>(None),
            HMatch::Failed { e } => r == Err::<Option<(HeaderEntry, usize)>, PemParsingError>(e),
        },
{
    if !match_tag_proc_type(input, from) {
        return Ok(None);
    }
    let n = input.len();
    let j = skip_sp(input, from + 10);
    if j >= n {
        return Err(PemParsingError::IncompleteInput);
    }
    let d = input[j];
    if !(d >= 48 && d <= 57) {
        return Ok(None);
    }
    if j + 1 >= n {
        return Err(PemParsingError::IncompleteInput);
    }
    if input[j + 1] != 44 {
        return Ok(None);
    }
    let k = j + 2;
    let t: ProcTypeType;
    let kv: usize;
    if match_tag_encrypted(input, k) {
        t = ProcTypeType::ENCRYPTED;
        kv = k + 9;
    } else if match_tag_mic_only(input, k) {
        t = ProcTypeType::MIC_ONLY;
        kv = k + 8;
    } else if match_tag_mic_clear(input, k) {
        t = ProcTypeType::MIC_CLEAR;
        kv = k + 9;
    } else if match_tag_crl(input, k) {
        t = ProcTypeType::CRL;
        kv = k + 3;
    } else {
        return Ok(None);
    }
    match parse_header_value(input, kv) {
        Ok((_v, next)) => Ok(Some((HeaderEntry::ProcType(d - 48, t), next))),
        Err(e) => Err(e),
    }
}

/// Tries the `DEK-Info` form at `from`.
fn parse_dek_info(input: &[u8], from: usize) -> (r: Result<
    Option<(HeaderEntry, usize)>,
    PemParsingError,
>)
    requires
        from <= input@.len(),
    ensures
        match spec_dek_info(input@, from as int) {
            HMatch::Matched { h, next } => r matches Ok(o) && o matches Some(p) && p.0@ == h && p.1
                == next,
            HMatch::NoMatch => r == Ok::<Option<(HeaderEntry, usize)>, PemParsingError>(None),
            HMatch::Failed { e } => r == Err::<Option<(HeaderEntry, usize)>, PemParsingError>(e),
        },
{
    if !match_tag_dek_info(input, from) {
        return Ok(None);
    }
    let n = input.len();
    let j = skip_sp(input, from + 9);
    let alg: RFC1423Algorithm;
    let k: usize;
    if match_tag_des_cbc(input, j) {
        alg = RFC1423Algorithm::DES_CBC;
        k = j + 7;
    } else if match_tag_des_ede3_cbc(input, j) {
        alg = RFC1423Algorithm::DES_EDE3_CBC;
        k = j + 12;
    } else if match_tag_aes_128_cbc(input, j) {
        alg = RFC1423Algorithm::AES_128_CBC;
        k = j + 11;
    } else if match_tag_aes_192_cbc(input, j) {
        alg = RFC1423Algorithm::AES_192_CBC;
        k = j + 11;
    } else if match_tag_aes_256_cbc(input, j) {
        alg = RFC1423Algorithm::AES_256_CBC;
        k = j + 11;
    } else {
        return Ok(None);
    }
    if k >= n {
        return Err(PemParsingError::IncompleteInput);
    }
    if input[k] != 44 {
        return Ok(None);
    }
    let (iv, he) = match parse_hex(input, k + 1) {
        Ok(p) => p,
        Err(e) => {
            return Err(e);
        },
    };
    let le = line_end_pos(input, he);
    if le >= n {
        return Err(PemParsingError::IncompleteInput);
    }
    Ok(Some((HeaderEntry::DEKInfo(alg, iv), le + 1)))
}

/// Tries the generic `Key: v1,v2,...` form at `from`.
fn parse_generic(input: &[u8], from: usize) -> (r: Result<
    Option<(HeaderEntry, usize)>,
    PemParsingError,
>)
    requires
        from <= input@.len(),
    ensures
        match spec_generic(input@, from as int) {
            HMatch::Matched { h, next } => r matches Ok(o) && o matches Some(p) && p.0@ == h && p.1
                == next,
            HMatch::NoMatch => r == Ok::<Option<(HeaderEntry, usize)>, PemParsingError>(None),
            HMatch::Failed { e } => r == Err::<Option<(HeaderEntry, usize)>, PemParsingError>(e),
        },
{
    let ke = key_end_pos(input, from);
    if ke >= input.len() {
        return Err(PemParsingError::IncompleteInput);
    }
    if input[ke] != 58 {
        return Ok(None);
    }
    let j = skip_sp(input, ke + 1);
    match parse_header_value(input, j) {
        Err(e) => Err(e),
        Ok((vbytes, next)) => {
            match take_string(input, from, ke) {
                None => Err(PemParsingError::InvalidText),
                Some(key) => {
                    match split_value(vbytes.as_slice()) {
                        Err(e2) => Err(e2),
                        Ok(values) => Ok(Some((HeaderEntry::Entry(key, values), next))),
                    }
                },
            }
        },
    }
}

/// Tries the three header forms at `from` in priority order.
fn pem_header(input: &[u8], from: usize) -> (r: Result<
    Option<(HeaderEntry, usize)>,
    PemParsingError,
>)
    requires
        from <= input@.len(),
    ensures
        match spec_header(input@, from as int) {
            HMatch::Matched { h, next } => r matches Ok(o) && o matches Some(p) && p.0@ == h && p.1
                == next,
            HMatch::NoMatch => r == Ok::<Option<(HeaderEntry, usize)>, PemParsingError>(None),
            HMatch::Failed { e } => r == Err::<Option<(HeaderEntry, usize)>, PemParsingError>(e),
        },
{
    match parse_proc_type(input, from) {
        Err(e) => Err(e),
        Ok(Some(p)) => Ok(Some(p)),
        Ok(None) => match parse_dek_info(input, from) {
            Err(e) => Err(e),
            Ok(Some(p)) => Ok(Some(p)),
            Ok(None) => parse_generic(input, from),
        },
    }
}

/// The rest of a header section once at least one header matched:
/// further headers, then exactly one blank line; a line that is
/// neither fails the section.
pub open spec fn spec_headers_tail(s: Seq<u8>, i: int) -> PRes<Seq<HeaderEntryView>>
    decreases s.len() - i,
    when 0 <= i <= s.len()
{
    match spec_header(s, i) {
        HMatch::Failed { e } => PRes::Failed { e },
        HMatch::NoMatch => if i < s.len() && s[i] == 10 {
            PRes::Parsed { v: Seq::empty(), next: i + 1 }
        } else {
            PRes::Failed { e: PemParsingError::HeaderGrammarError }
        },
        HMatch::Matched { h, next } => if i < next <= s.len() {
            match spec_headers_tail(s, next) {
                PRes::Parsed { v, next: n2 } => PRes::Parsed { v: seq![h] + v, next: n2 },
                PRes::Failed { e } => PRes::Failed { e },
            }
        } else {
            PRes::Failed { e: PemParsingError::HeaderGrammarError }
        },
    }
}

/// A header section at `i`: one or more header lines closed by a
/// blank line, or — when no header line matches at all — the empty
/// sequence with the position unchanged.
pub open spec fn spec_parse_headers(s: Seq<u8>, i: int) -> PRes<Seq<HeaderEntryView>>
    recommends
        0 <= i <= s.len(),
{
    match spec_header(s, i) {
        HMatch::NoMatch => PRes::Parsed { v: Seq::empty(), next: i },
        HMatch::Failed { e } => PRes::Failed { e },
        HMatch::Matched { h, next } => if i < next <= s.len() {
            match spec_headers_tail(s, next) {
                PRes::Parsed { v, next: n2 } => PRes::Parsed { v: seq![h] + v, next: n2 },
                PRes::Failed { e } => PRes::Failed { e },
            }
        } else {
            PRes::Failed { e: PemParsingError::HeaderGrammarError }
        },
    }
}

pub proof fn lemma_headers_tail_bounds(s: Seq<u8>, i: int)
    requires
        0 <= i <= s.len(),
    ensures
        spec_headers_tail(s, i) matches PRes::Parsed { v, next } ==> i < next <= s.len(),
    decreases s.len() - i,
{
    match spec_header(s, i) {
        HMatch::Matched { h, next } => {
            if i < next <= s.len() {
                lemma_headers_tail_bounds(s, next);
            }
        },
        _ => {},
    }
}

pub proof fn lemma_parse_headers_bounds(s: Seq<u8>, i: int)
    requires
        0 <= i <= s.len(),
    ensures
        spec_parse_headers(s, i) matches PRes::Parsed { v, next } ==> i <= next <= s.len(),
{
    match spec_header(s, i) {
        HMatch::Matched { h, next } => {
            if i < next <= s.len() {
                lemma_headers_tail_bounds(s, next);
            }
        },
        _ => {},
    }
}

/// Parses the header section at `from`: zero or more header lines; a
/// non-empty section must be closed by one blank line, which is
/// consumed.
pub fn pem_headers(input: &[u8], from: usize) -> (r: Result<
    (Vec<HeaderEntry>, usize),
    PemParsingError,
>)
    requires
        from <= input@.len(),
    ensures
        match spec_parse_headers(input@, from as int) {
            PRes::Parsed { v, next } => r matches Ok(p) && p.0.deep_view() == v && p.1 == next
                && from <= p.1 <= input@.len(),
            PRes::Failed { e } => r == Err::<(Vec<HeaderEntry>, usize), PemParsingError>(e),
        },
{
    let ghost s = input@;
    let mut headers: Vec<HeaderEntry> = Vec::new();
    let first = match pem_header(input, from) {
        Err(e) => {
            return Err(e);
        },
        Ok(None) => {
            proof {
                crate::lemma_deep_of_vec(&headers);
                assert(headers.deep_view() =~= Seq::<HeaderEntryView>::empty());
            }
            return Ok((headers, from));
        },
        Ok(Some(p)) => p,
    };
    proof {
        lemma_header_advances(s, from as int);
    }
    let ghost mut hdone: Seq<HeaderEntryView> = seq![first.0@];
    let ghost old_seq = headers@;
    headers.push(first.0);
    proof {
        crate::lemma_deep_of_vec(&headers);
        crate::lemma_deep_of_push(old_seq, headers@[0]);
        assert(headers.deep_view() =~= hdone);
    }
    let mut j: usize = first.1;
    loop
        invariant
            from < j <= s.len(),
            headers.deep_view() == hdone,
            match spec_headers_tail(s, j as int) {
                PRes::Parsed { v, next } => spec_parse_headers(s, from as int) == (PRes::<
                    Seq<HeaderEntryView>,
                >::Parsed { v: hdone + v, next }),
                PRes::Failed { e } => spec_parse_headers(s, from as int) == (PRes::<
                    Seq<HeaderEntryView>,
                >::Failed { e }),
            },
        decreases s.len() - j,
    {
        match pem_header(input, j) {
            Err(e) => {
                return Err(e);
            },
            Ok(Some(p)) => {
                proof {
                    lemma_header_advances(s, j as int);
                }
                let ghost h_view = p.0@;
                let ghost old_seq2 = headers@;
                let ghost old_hdone = hdone;
                headers.push(p.0);
                proof {
                    crate::lemma_deep_of_vec(&headers);
                    crate::lemma_deep_of_push(old_seq2, headers@[headers@.len() - 1]);
                    hdone = hdone.push(h_view);
                    assert(headers.deep_view() =~= hdone);
                    match spec_headers_tail(s, p.1 as int) {
                        PRes::Parsed { v, next } => {
                            assert(old_hdone + (seq![h_view] + v) =~= hdone + v);
                        },
                        PRes::Failed { e } => {},
                    }
                }
                j = p.1;
            },
            Ok(None) => {
                if j < input.len() && input[j] == 10 {
                    proof {
                        assert(hdone + Seq::<HeaderEntryView>::empty() =~= hdone);
                    }
                    return Ok((headers, j + 1));
                } else {
                    return Err(PemParsingError::HeaderGrammarError);
                }
            },
        }
    }
}

} // verus!
