//! Delimiter scanning: recognition of `-----BEGIN <label>-----` and
//! `-----END <label>-----` lines, and the whitespace scans the block
//! parser needs.
use vstd::prelude::*;
use vstd::utf8::{decode_utf8, encode_utf8, encode_utf8_decode_utf8, valid_utf8};

use crate::{PemParsingError, PRes};

verus! {

/// Space or tab: the bytes skipped between a header key or tag and its
/// value, and after a label's closing dashes.
pub open spec fn is_sp(b: u8) -> bool {
    b == 32 || b == 9
}

/// Position of the first byte at or after `i` that is not a space or
/// tab.
pub open spec fn spec_skip_sp(s: Seq<u8>, i: int) -> int
    decreases s.len() - i,
    when 0 <= i <= s.len()
{
    if i < s.len() && is_sp(s[i]) {
        spec_skip_sp(s, i + 1)
    } else {
        i
    }
}

/// Position of the first byte at or after `i` that is not space, tab,
/// CR or LF: the whitespace skipped around the base64 payload.
pub open spec fn spec_skip_wsp(s: Seq<u8>, i: int) -> int
    decreases s.len() - i,
    when 0 <= i <= s.len()
{
    if i < s.len() && (s[i] == 32 || s[i] == 9 || s[i] == 13 || s[i] == 10) {
        spec_skip_wsp(s, i + 1)
    } else {
        i
    }
}

/// Position of the first byte at or after `i` that is not space, CR or
/// LF: the whitespace consumed after a footer line.
pub open spec fn spec_skip_footer_ws(s: Seq<u8>, i: int) -> int
    decreases s.len() - i,
    when 0 <= i <= s.len()
{
    if i < s.len() && (s[i] == 32 || s[i] == 13 || s[i] == 10) {
        spec_skip_footer_ws(s, i + 1)
    } else {
        i
    }
}

/// Position of the first byte at or after `i` that is not a space.
pub open spec fn spec_skip_spaces_only(s: Seq<u8>, i: int) -> int
    decreases s.len() - i,
    when 0 <= i <= s.len()
{
    if i < s.len() && s[i] == 32 {
        spec_skip_spaces_only(s, i + 1)
    } else {
        i
    }
}

/// Position of the first LF at or after `i`, or the end of the buffer.
pub open spec fn spec_line_end(s: Seq<u8>, i: int) -> int
    decreases s.len() - i,
    when 0 <= i <= s.len()
{
    if i < s.len() && s[i] != 10 {
        spec_line_end(s, i + 1)
    } else {
        i
    }
}

pub proof fn lemma_skip_sp_bounds(s: Seq<u8>, i: int)
    requires
        0 <= i <= s.len(),
    ensures
        i <= spec_skip_sp(s, i) <= s.len(),
    decreases s.len() - i,
{
    if i < s.len() && is_sp(s[i]) {
        lemma_skip_sp_bounds(s, i + 1);
    }
}

pub proof fn lemma_skip_wsp_bounds(s: Seq<u8>, i: int)
    requires
        0 <= i <= s.len(),
    ensures
        i <= spec_skip_wsp(s, i) <= s.len(),
    decreases s.len() - i,
{
    if i < s.len() && (s[i] == 32 || s[i] == 9 || s[i] == 13 || s[i] == 10) {
        lemma_skip_wsp_bounds(s, i + 1);
    }
}

pub proof fn lemma_skip_footer_ws_bounds(s: Seq<u8>, i: int)
    requires
        0 <= i <= s.len(),
    ensures
        i <= spec_skip_footer_ws(s, i) <= s.len(),
    decreases s.len() - i,
{
    if i < s.len() && (s[i] == 32 || s[i] == 13 || s[i] == 10) {
        lemma_skip_footer_ws_bounds(s, i + 1);
    }
}

pub proof fn lemma_skip_spaces_only_bounds(s: Seq<u8>, i: int)
    requires
        0 <= i <= s.len(),
    ensures
        i <= spec_skip_spaces_only(s, i) <= s.len(),
    decreases s.len() - i,
{
    if i < s.len() && s[i] == 32 {
        lemma_skip_spaces_only_bounds(s, i + 1);
    }
}

pub proof fn lemma_line_end_bounds(s: Seq<u8>, i: int)
    requires
        0 <= i <= s.len(),
    ensures
        i <= spec_line_end(s, i) <= s.len(),
    decreases s.len() - i,
{
    if i < s.len() && s[i] != 10 {
        lemma_line_end_bounds(s, i + 1);
    }
}

/// Skips spaces and tabs from `from`.
pub(crate) fn skip_sp(input: &[u8], from: usize) -> (r: usize)
    requires
        from <= input@.len(),
    ensures
        r == spec_skip_sp(input@, from as int),
        from <= r <= input@.len(),
{
    let mut i = from;
    while i < input.len() && (input[i] == 32 || input[i] == 9)
        invariant
            from <= i <= input@.len(),
            spec_skip_sp(input@, from as int) == spec_skip_sp(input@, i as int),
        decreases input@.len() - i,
    {
        i = i + 1;
    }
    i
}

/// Skips spaces, tabs, CRs and LFs from `from`.
pub(crate) fn skip_wsp(input: &[u8], from: usize) -> (r: usize)
    requires
        from <= input@.len(),
    ensures
        r == spec_skip_wsp(input@, from as int),
        from <= r <= input@.len(),
{
    let mut i = from;
    while i < input.len() && (input[i] == 32 || input[i] == 9 || input[i] == 13 || input[i] == 10)
        invariant
            from <= i <= input@.len(),
            spec_skip_wsp(input@, from as int) == spec_skip_wsp(input@, i as int),
        decreases input@.len() - i,
    {
        i = i + 1;
    }
    i
}

/// Skips spaces, CRs and LFs from `from`.
pub fn skip_footer_ws(input: &[u8], from: usize) -> (r: usize)
    requires
        from <= input@.len(),
    ensures
        r == spec_skip_footer_ws(input@, from as int),
        from <= r <= input@.len(),
{
    let mut i = from;
    while i < input.len() && (input[i] == 32 || input[i] == 13 || input[i] == 10)
        invariant
            from <= i <= input@.len(),
            spec_skip_footer_ws(input@, from as int) == spec_skip_footer_ws(input@, i as int),
        decreases input@.len() - i,
    {
        i = i + 1;
    }
    i
}

/// Skips spaces from `from`.
pub(crate) fn skip_spaces_only(input: &[u8], from: usize) -> (r: usize)
    requires
        from <= input@.len(),
    ensures
        r == spec_skip_spaces_only(input@, from as int),
        from <= r <= input@.len(),
{
    let mut i = from;
    while i < input.len() && input[i] == 32
        invariant
            from <= i <= input@.len(),
            spec_skip_spaces_only(input@, from as int) == spec_skip_spaces_only(input@, i as int),
        decreases input@.len() - i,
    {
        i = i + 1;
    }
    i
}

/// Finds the next LF from `from`, or the end of the buffer.
pub(crate) fn line_end_pos(input: &[u8], from: usize) -> (r: usize)
    requires
        from <= input@.len(),
    ensures
        r == spec_line_end(input@, from as int),
        from <= r <= input@.len(),
        r < input@.len() ==> input@[r as int] == 10,
        forall|k: int| from <= k < r ==> input@[k] != 10,
{
    let mut i = from;
    while i < input.len() && input[i] != 10
        invariant
            from <= i <= input@.len(),
            spec_line_end(input@, from as int) == spec_line_end(input@, i as int),
            forall|k: int| from <= k < i ==> input@[k] != 10,
        decreases input@.len() - i,
    {
        i = i + 1;
    }
    i
}

/// Relies on std's str::from_utf8: it returns the byte slice as text
/// exactly when the bytes are valid UTF-8, and the text's UTF-8 bytes
/// are the input bytes.
#[verifier::external_body]
fn bytes_as_str(v: &[u8]) -> (r: Option<&str>)
    ensures
        r is Some <==> valid_utf8(v@),
        r matches Some(t) ==> encode_utf8(t@) == v@,
{
    match std::str::from_utf8(v) {
        Ok(t) => Some(t),
        Err(_) => None,
    }
}

/// Copies `input[a..b]` into an owned string when those bytes are
/// valid UTF-8.
pub(crate) fn take_string(input: &[u8], a: usize, b: usize) -> (r: Option<String>)
    requires
        a <= b <= input@.len(),
    ensures
        r is Some <==> valid_utf8(input@.subrange(a as int, b as int)),
        r matches Some(t) ==> t@ == decode_utf8(input@.subrange(a as int, b as int)),
{
    let sl = vstd::slice::slice_subrange(input, a, b);
    match bytes_as_str(sl) {
        Some(t) => {
            proof {
                encode_utf8_decode_utf8(t@);
            }
            Some(t.to_owned())
        },
        None => None,
    }
}

/// Result of the dash-counting scan that ends a delimiter line.
pub ghost enum DashScan {
    /// The fifth consecutive dash stands at `label_end + 4`; the label
    /// is everything scanned before the dash run, and `next` is the
    /// position just after the run.
    Found { label_end: int, next: int },
    /// A CR, an early LF, or an internal run of two or more dashes.
    Malformed,
    /// The buffer ended before five consecutive dashes were seen.
    Incomplete,
}

/// The dash-counting scan over `s` from `i`, with `run` consecutive
/// dashes already seen: a CR fails; a non-dash after an internal run
/// of two or more dashes fails; an LF before the closing run fails;
/// the fifth consecutive dash succeeds.
pub open spec fn spec_dashed_scan(s: Seq<u8>, i: int, run: int) -> DashScan
    decreases s.len() - i,
    when 0 <= i <= s.len()
{
    if i >= s.len() {
        DashScan::Incomplete
    } else {
        let b = s[i];
        if b == 13 {
            DashScan::Malformed
        } else if b == 45 {
            if run == 4 {
                DashScan::Found { label_end: i - 4, next: i + 1 }
            } else {
                spec_dashed_scan(s, i + 1, run + 1)
            }
        } else if run > 1 {
            DashScan::Malformed
        } else if b == 10 {
            DashScan::Malformed
        } else {
            spec_dashed_scan(s, i + 1, 0)
        }
    }
}

pub proof fn lemma_dashed_scan_bounds(s: Seq<u8>, i: int, run: int)
    requires
        0 <= i <= s.len(),
        0 <= run <= 4,
    ensures
        spec_dashed_scan(s, i, run) matches DashScan::Found { label_end, next } ==> i - run
            <= label_end && label_end + 5 == next && next <= s.len(),
    decreases s.len() - i,
{
    if i < s.len() {
        let b = s[i];
        if b == 13 {
        } else if b == 45 {
            if run == 4 {
            } else {
                lemma_dashed_scan_bounds(s, i + 1, run + 1);
            }
        } else if run > 1 {
        } else if b == 10 {
        } else {
            lemma_dashed_scan_bounds(s, i + 1, 0);
        }
    }
}

/// Runs the dash-counting scan from `from`; on success returns the
/// label's end position and the position after the five-dash run.
fn dashed_scan(input: &[u8], from: usize) -> (r: Result<(usize, usize), PemParsingError>)
    requires
        from <= input@.len(),
    ensures
        match spec_dashed_scan(input@, from as int, 0) {
            DashScan::Found { label_end, next } => r matches Ok(p) && p.0 == label_end && p.1
                == next && from <= p.0 && p.1 <= input@.len(),
            DashScan::Malformed => r == Err::<(usize, usize), PemParsingError>(
                PemParsingError::MalformedDelimiter,
            ),
            DashScan::Incomplete => r == Err::<(usize, usize), PemParsingError>(
                PemParsingError::IncompleteInput,
            ),
        },
{
    let ghost s = input@;
    let mut i = from;
    let mut run: u8 = 0;
    proof {
        lemma_dashed_scan_bounds(s, from as int, 0);
    }
    while i < input.len()
        invariant
            from <= i <= s.len(),
            0 <= run <= 4,
            run <= i - from,
            spec_dashed_scan(s, from as int, 0) == spec_dashed_scan(s, i as int, run as int),
        decreases s.len() - i,
    {
        let b = input[i];
        if b == 13 {
            return Err(PemParsingError::MalformedDelimiter);
        }
        if b == 45 {
            if run == 4 {
                proof {
                    lemma_dashed_scan_bounds(s, from as int, 0);
                }
                return Ok((i - 4, i + 1));
            }
            run = run + 1;
        } else {
            if run > 1 {
                return Err(PemParsingError::MalformedDelimiter);
            }
            if b == 10 {
                return Err(PemParsingError::MalformedDelimiter);
            }
            run = 0;
        }
        i = i + 1;
    }
    Err(PemParsingError::IncompleteInput)
}

/// Byte `k` of the literal `-----BEGIN `.
pub open spec fn begin_tag_byte(k: int) -> u8 {
    if k < 5 {
        45
    } else if k == 5 {
        66
    } else if k == 6 {
        69
    } else if k == 7 {
        71
    } else if k == 8 {
        73
    } else if k == 9 {
        78
    } else {
        32
    }
}

/// Byte `k` of the literal `-----END `.
pub open spec fn end_tag_byte(k: int) -> u8 {
    if k < 5 {
        45
    } else if k == 5 {
        69
    } else if k == 6 {
        78
    } else if k == 7 {
        68
    } else {
        32
    }
}

/// True when the `n` bytes at `i` agree with the first `n` bytes of
/// `-----BEGIN `.
pub open spec fn begin_prefix_ok(s: Seq<u8>, i: int, n: int) -> bool {
    forall|k: int| 0 <= k < n ==> s[i + k] == begin_tag_byte(k)
}

/// True when the `n` bytes at `i` agree with the first `n` bytes of
/// `-----END `.
pub open spec fn end_prefix_ok(s: Seq<u8>, i: int, n: int) -> bool {
    forall|k: int| 0 <= k < n ==> s[i + k] == end_tag_byte(k)
}

/// True when the whole literal `-----BEGIN ` stands at `i`.
pub open spec fn has_begin_tag(s: Seq<u8>, i: int) -> bool {
    i + 11 <= s.len() && begin_prefix_ok(s, i, 11)
}

/// True when the whole literal `-----END ` stands at `i`.
pub open spec fn has_end_tag(s: Seq<u8>, i: int) -> bool {
    i + 9 <= s.len() && end_prefix_ok(s, i, 9)
}

/// Byte `k` of the literal `-----BEGIN `.
fn begin_tag_byte_at(k: usize) -> (b: u8)
    requires
        k < 11,
    ensures
        b == begin_tag_byte(k as int),
{
    if k < 5 {
        45
    } else if k == 5 {
        66
    } else if k == 6 {
        69
    } else if k == 7 {
        71
    } else if k == 8 {
        73
    } else if k == 9 {
        78
    } else {
        32
    }
}

/// Byte `k` of the literal `-----END `.
fn end_tag_byte_at(k: usize) -> (b: u8)
    requires
        k < 9,
    ensures
        b == end_tag_byte(k as int),
{
    if k < 5 {
        45
    } else if k == 5 {
        69
    } else if k == 6 {
        78
    } else if k == 7 {
        68
    } else {
        32
    }
}

/// The label bytes recognised by a successful dash scan that started
/// at `start`.
pub open spec fn scan_label(s: Seq<u8>, start: int, label_end: int) -> Seq<u8> {
    s.subrange(start, label_end)
}

/// Recognition of a `-----BEGIN <label>-----` line at `i`: the fixed
/// prefix, the dash-counted label, trailing spaces or tabs, and a line
/// ending (`LF` or `CRLF`). Yields the label and the position after
/// the line ending.
pub open spec fn spec_begin(s: Seq<u8>, i: int) -> PRes<Seq<char>> {
    if !has_begin_tag(s, i) {
        let avail = if s.len() - i < 11 {
            s.len() - i
        } else {
            11
        };
        if begin_prefix_ok(s, i, avail) {
            PRes::Failed { e: PemParsingError::IncompleteInput }
        } else {
            PRes::Failed { e: PemParsingError::MalformedDelimiter }
        }
    } else {
        match spec_dashed_scan(s, i + 11, 0) {
            DashScan::Incomplete => PRes::Failed { e: PemParsingError::IncompleteInput },
            DashScan::Malformed => PRes::Failed { e: PemParsingError::MalformedDelimiter },
            DashScan::Found { label_end, next } => {
                let lb = scan_label(s, i + 11, label_end);
                if !valid_utf8(lb) {
                    PRes::Failed { e: PemParsingError::InvalidText }
                } else {
                    let j = spec_skip_sp(s, next);
                    if j >= s.len() {
                        PRes::Failed { e: PemParsingError::IncompleteInput }
                    } else if s[j] == 10 {
                        PRes::Parsed { v: decode_utf8(lb), next: j + 1 }
                    } else if s[j] == 13 {
                        if j + 1 >= s.len() {
                            PRes::Failed { e: PemParsingError::IncompleteInput }
                        } else if s[j + 1] == 10 {
                            PRes::Parsed { v: decode_utf8(lb), next: j + 2 }
                        } else {
                            PRes::Failed { e: PemParsingError::MalformedDelimiter }
                        }
                    } else {
                        PRes::Failed { e: PemParsingError::MalformedDelimiter }
                    }
                }
            },
        }
    }
}

/// Recognition of a `-----END <label>-----` line at `i`: the fixed
/// prefix, the dash-counted label, then any run of spaces, CRs and
/// LFs. Yields the label and the position after that whitespace.
pub open spec fn spec_footer(s: Seq<u8>, i: int) -> PRes<Seq<char>> {
    if !has_end_tag(s, i) {
        let avail = if s.len() - i < 9 {
            s.len() - i
        } else {
            9
        };
        if end_prefix_ok(s, i, avail) {
            PRes::Failed { e: PemParsingError::IncompleteInput }
        } else {
            PRes::Failed { e: PemParsingError::MalformedDelimiter }
        }
    } else {
        match spec_dashed_scan(s, i + 9, 0) {
            DashScan::Incomplete => PRes::Failed { e: PemParsingError::IncompleteInput },
            DashScan::Malformed => PRes::Failed { e: PemParsingError::MalformedDelimiter },
            DashScan::Found { label_end, next } => {
                let lb = scan_label(s, i + 9, label_end);
                if !valid_utf8(lb) {
                    PRes::Failed { e: PemParsingError::InvalidText }
                } else {
                    PRes::Parsed { v: decode_utf8(lb), next: spec_skip_footer_ws(s, next) }
                }
            },
        }
    }
}

/// A recognised BEGIN line consumes at least one byte and stays in
/// the buffer.
pub proof fn lemma_begin_bounds(s: Seq<u8>, i: int)
    requires
        0 <= i <= s.len(),
    ensures
        spec_begin(s, i) matches PRes::Parsed { v, next } ==> i < next <= s.len(),
{
    if has_begin_tag(s, i) {
        lemma_dashed_scan_bounds(s, i + 11, 0);
        match spec_dashed_scan(s, i + 11, 0) {
            DashScan::Found { label_end, next } => {
                lemma_skip_sp_bounds(s, next);
            },
            _ => {},
        }
    }
}

/// A recognised END line consumes at least one byte and stays in the
/// buffer.
pub proof fn lemma_footer_bounds(s: Seq<u8>, i: int)
    requires
        0 <= i <= s.len(),
    ensures
        spec_footer(s, i) matches PRes::Parsed { v, next } ==> i < next <= s.len(),
{
    if has_end_tag(s, i) {
        lemma_dashed_scan_bounds(s, i + 9, 0);
        match spec_dashed_scan(s, i + 9, 0) {
            DashScan::Found { label_end, next } => {
                lemma_skip_footer_ws_bounds(s, next);
            },
            _ => {},
        }
    }
}

/// The always-matching fallback of the header section: no headers,
/// nothing consumed.
pub fn no_pem_headers(input: &[u8], from: usize) -> (r: (Vec<crate::headers::HeaderEntry>, usize))
    requires
        from <= input@.len(),
    ensures
        r.0@.len() == 0,
        r.1 == from,
{
    (Vec::new(), from)
}

/// Parses a `-----BEGIN <label>-----` line at `from`, returning the
/// label and the position after the line ending.
pub fn pem_begin(input: &[u8], from: usize) -> (r: Result<(String, usize), PemParsingError>)
    requires
        from <= input@.len(),
    ensures
        match spec_begin(input@, from as int) {
            PRes::Parsed { v, next } => r matches Ok(p) && p.0@ == v && p.1 == next && from <= p.1
                <= input@.len(),
            PRes::Failed { e } => r == Err::<(String, usize), PemParsingError>(e),
        },
{
    let ghost s = input@;
    let n = input.len();
    let avail: usize = if n - from < 11 {
        n - from
    } else {
        11
    };
    let mut k: usize = 0;
    while k < avail
        invariant
            k <= avail,
            avail <= n - from,
            avail <= 11,
            n == s.len(),
            begin_prefix_ok(s, from as int, k as int),
        decreases avail - k,
    {
        if input[from + k] != begin_tag_byte_at(k) {
            proof {
                assert(!begin_prefix_ok(s, from as int, avail as int));
                assert(!has_begin_tag(s, from as int));
            }
            return Err(PemParsingError::MalformedDelimiter);
        }
        k = k + 1;
    }
    if n - from < 11 {
        proof {
            assert(!has_begin_tag(s, from as int));
        }
        return Err(PemParsingError::IncompleteInput);
    }
    proof {
        assert(has_begin_tag(s, from as int));
    }
    let (label_end, next) = match dashed_scan(input, from + 11) {
        Ok(p) => p,
        Err(e) => {
            return Err(e);
        },
    };
    proof {
        lemma_dashed_scan_bounds(s, from as int + 11, 0);
    }
    let label = match take_string(input, from + 11, label_end) {
        Some(t) => t,
        None => {
            return Err(PemParsingError::InvalidText);
        },
    };
    let j = skip_sp(input, next);
    if j >= input.len() {
        return Err(PemParsingError::IncompleteInput);
    }
    if input[j] == 10 {
        Ok((label, j + 1))
    } else if input[j] == 13 {
        if j + 1 >= input.len() {
            Err(PemParsingError::IncompleteInput)
        } else if input[j + 1] == 10 {
            Ok((label, j + 2))
        } else {
            Err(PemParsingError::MalformedDelimiter)
        }
    } else {
        Err(PemParsingError::MalformedDelimiter)
    }
}

/// Parses a `-----END <label>-----` line at `from`, returning the
/// label and the position after any trailing whitespace.
pub fn pem_footer(input: &[u8], from: usize) -> (r: Result<(String, usize), PemParsingError>)
    requires
        from <= input@.len(),
    ensures
        match spec_footer(input@, from as int) {
            PRes::Parsed { v, next } => r matches Ok(p) && p.0@ == v && p.1 == next && from <= p.1
                <= input@.len(),
            PRes::Failed { e } => r == Err::<(String, usize), PemParsingError>(e),
        },
{
    let ghost s = input@;
    let n = input.len();
    let avail: usize = if n - from < 9 {
        n - from
    } else {
        9
    };
    let mut k: usize = 0;
    while k < avail
        invariant
            k <= avail,
            avail <= n - from,
            avail <= 9,
            n == s.len(),
            end_prefix_ok(s, from as int, k as int),
        decreases avail - k,
    {
        if input[from + k] != end_tag_byte_at(k) {
            proof {
                assert(!end_prefix_ok(s, from as int, avail as int));
                assert(!has_end_tag(s, from as int));
            }
            return Err(PemParsingError::MalformedDelimiter);
        }
        k = k + 1;
    }
    if n - from < 9 {
        proof {
            assert(!has_end_tag(s, from as int));
        }
        return Err(PemParsingError::IncompleteInput);
    }
    proof {
        assert(has_end_tag(s, from as int));
    }
    let (label_end, next) = match dashed_scan(input, from + 9) {
        Ok(p) => p,
        Err(e) => {
            return Err(e);
        },
    };
    proof {
        lemma_dashed_scan_bounds(s, from as int + 9, 0);
    }
    let label = match take_string(input, from + 9, label_end) {
        Some(t) => t,
        None => {
            return Err(PemParsingError::InvalidText);
        },
    };
    let j = skip_footer_ws(input, next);
    Ok((label, j))
}

} // verus!
