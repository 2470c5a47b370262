//! Decoding and re-encoding of PEM-style textual container blocks
//! (RFC 1421-like): dashed `BEGIN`/`END` delimiter lines, optional
//! colon-delimited headers (with continuation-line folding and two
//! structured header forms), and a base64-encoded payload.
//!
//! Every parse step is a pure function from a byte buffer and a start
//! position to a typed result and the position of the first unconsumed
//! byte; its behaviour is pinned down by a specification-level parser
//! over the byte sequence.
#![verifier::loop_isolation(false)]
use vstd::prelude::*;

pub mod base64;
pub mod display;
pub mod headers;
pub mod parsers;

pub use headers::{HeaderEntry, ProcTypeType, RFC1423Algorithm};

verus! {

/// Outcome of one specification-level parse step: the parsed value and
/// the position of the first unconsumed byte, or the failure kind.
pub ghost enum PRes<T> {
    Parsed { v: T, next: int },
    Failed { e: PemParsingError },
}

/// The element-wise deep view of a sequence of values.
pub open spec fn deep_of<T: DeepView>(s: Seq<T>) -> Seq<T::V> {
    Seq::new(s.len(), |i: int| s[i].deep_view())
}

/// A vector's deep view is the element-wise deep view of its view.
pub proof fn lemma_deep_of_vec<T: DeepView>(v: &Vec<T>)
    ensures
        v.deep_view() == deep_of(v@),
{
    assert(v.deep_view() =~= deep_of(v@));
}

/// Pushing an element extends the element-wise deep view.
pub proof fn lemma_deep_of_push<T: DeepView>(s: Seq<T>, x: T)
    ensures
        deep_of(s.push(x)) == deep_of(s).push(x.deep_view()),
{
    assert(deep_of(s.push(x)) =~= deep_of(s).push(x.deep_view()));
}

/// Failure kinds reported by the parsing pipeline. Any failure aborts
/// the current parse; there is no recovery.
#[derive(Debug, Clone, Copy, PartialEq, Eq, Structural)]
pub enum PemParsingError {
    /// A dash run never reaches five, an internal multi-dash run appears
    /// inside a label, or a carriage return stands where a label or line
    /// ending is expected.
    MalformedDelimiter,
    /// The buffer ends before a delimiter or a structured header value
    /// can be determined.
    IncompleteInput,
    /// A label or header text region is not valid UTF-8.
    InvalidText,
    /// At least one header line was read but the header section is not
    /// closed by a blank line.
    HeaderGrammarError,
    /// An odd-length hexadecimal run in an encryption-descriptor IV.
    HexDecodeError,
}

/// Specification-level form of one decoded block.
pub ghost struct BlockView {
    pub label: Seq<char>,
    pub headers: Seq<headers::HeaderEntryView>,
    pub data: Seq<u8>,
}

/// One decoded PEM block: the BEGIN line's label, the headers in the
/// order encountered, and the fully decoded payload.
#[derive(Debug, PartialEq)]
pub struct Block {
    pub block_type: String,
    pub headers: Vec<headers::HeaderEntry>,
    pub data: Vec<u8>,
}

impl View for Block {
    type V = BlockView;

    open spec fn view(&self) -> BlockView {
        BlockView {
            label: self.block_type@,
            headers: self.headers.deep_view(),
            data: self.data@,
        }
    }
}

impl DeepView for Block {
    type V = BlockView;

    open spec fn deep_view(&self) -> BlockView {
        self.view()
    }
}

/// The canonical PEM text of a block: BEGIN line, header section,
/// base64 wrapped at 64 characters per line, END line.
pub open spec fn spec_block_text(b: BlockView) -> Seq<u8> {
    seq![45u8, 45, 45, 45, 45, 66, 69, 71, 73, 78, 32] + vstd::utf8::encode_utf8(b.label) + seq![
        45u8,
        45,
        45,
        45,
        45,
        10,
    ] + display::spec_headers_text(b.headers) + base64::spec_b64_text(b.data, 64) + seq![
        45u8,
        45,
        45,
        45,
        45,
        69,
        78,
        68,
        32,
    ] + vstd::utf8::encode_utf8(b.label) + seq![45u8, 45, 45, 45, 45, 10]
}

impl Block {
    /// Renders the block back to canonical PEM text; header value
    /// widths and the base64 line width are re-normalized, so the
    /// text need not equal the bytes the block was parsed from.
    #[verifier::rlimit(60)]
    pub fn to_text(&self) -> (r: Vec<u8>)
        ensures
            r@ == spec_block_text(self@),
    {
        let mut out: Vec<u8> = Vec::new();
        out.push(45);
        out.push(45);
        out.push(45);
        out.push(45);
        out.push(45);
        out.push(66);
        out.push(69);
        out.push(71);
        out.push(73);
        out.push(78);
        out.push(32);
        out.extend_from_slice(self.block_type.as_str().as_bytes());
        out.push(45);
        out.push(45);
        out.push(45);
        out.push(45);
        out.push(45);
        out.push(10);
        proof {
            assert(out@ =~= seq![45u8, 45, 45, 45, 45, 66, 69, 71, 73, 78, 32]
                + vstd::utf8::encode_utf8(self.block_type@) + seq![45u8, 45, 45, 45, 45, 10]);
        }
        display::write_headers(&mut out, &self.headers);
        display::write_base64(&mut out, self.data.as_slice(), 64);
        let ghost mid = out@;
        out.push(45);
        out.push(45);
        out.push(45);
        out.push(45);
        out.push(45);
        out.push(69);
        out.push(78);
        out.push(68);
        out.push(32);
        out.extend_from_slice(self.block_type.as_str().as_bytes());
        out.push(45);
        out.push(45);
        out.push(45);
        out.push(45);
        out.push(45);
        out.push(10);
        proof {
            assert(out@ =~= mid + seq![45u8, 45, 45, 45, 45, 69, 78, 68, 32]
                + vstd::utf8::encode_utf8(self.block_type@) + seq![45u8, 45, 45, 45, 45, 10]);
            assert(out@ =~= spec_block_text(self@));
        }
        out
    }
}

/// One block at `i`: the BEGIN line, an optional header section, the
/// base64 payload up to the first byte outside the alphabet (which is
/// the footer's first dash), surrounding whitespace, and the END line.
/// The footer's label is not compared with the BEGIN label.
pub open spec fn spec_block(s: Seq<u8>, i: int) -> PRes<BlockView>
    recommends
        0 <= i <= s.len(),
{
    match parsers::spec_begin(s, i) {
        PRes::Failed { e } => PRes::Failed { e },
        PRes::Parsed { v: label, next: j1 } => match headers::spec_parse_headers(s, j1) {
            PRes::Failed { e } => PRes::Failed { e },
            PRes::Parsed { v: hs, next: j2 } => {
                let data = base64::spec_b64_decoded(s, j2);
                let j3 = base64::spec_b64_end(s, j2);
                let j4 = parsers::spec_skip_wsp(s, j3);
                match parsers::spec_footer(s, j4) {
                    PRes::Failed { e } => PRes::Failed { e },
                    PRes::Parsed { v: flabel, next: j5 } => PRes::Parsed {
                        v: BlockView { label, headers: hs, data },
                        next: j5,
                    },
                }
            },
        },
    }
}

/// A parsed block consumes at least one byte and stays in the buffer.
pub proof fn lemma_block_bounds(s: Seq<u8>, i: int)
    requires
        0 <= i <= s.len(),
    ensures
        spec_block(s, i) matches PRes::Parsed { v, next } ==> i < next <= s.len(),
{
    parsers::lemma_begin_bounds(s, i);
    match parsers::spec_begin(s, i) {
        PRes::Parsed { v: label, next: j1 } => {
            headers::lemma_parse_headers_bounds(s, j1);
            match headers::spec_parse_headers(s, j1) {
                PRes::Parsed { v: hs, next: j2 } => {
                    base64::lemma_b64_end_bounds(s, j2);
                    let j3 = base64::spec_b64_end(s, j2);
                    parsers::lemma_skip_wsp_bounds(s, j3);
                    let j4 = parsers::spec_skip_wsp(s, j3);
                    parsers::lemma_footer_bounds(s, j4);
                },
                _ => {},
            }
        },
        _ => {},
    }
}

/// All blocks in the buffer from `i` on: one block, and, while the
/// buffer is not exhausted, the next; every repetition must succeed.
pub open spec fn spec_blocks(s: Seq<u8>, i: int) -> PRes<Seq<BlockView>>
    decreases s.len() - i,
    when 0 <= i <= s.len()
{
    match spec_block(s, i) {
        PRes::Failed { e } => PRes::Failed { e },
        PRes::Parsed { v: b, next: j } => {
            if j >= s.len() {
                PRes::Parsed { v: seq![b], next: j }
            } else if i < j {
                match spec_blocks(s, j) {
                    PRes::Parsed { v, next } => PRes::Parsed { v: seq![b] + v, next },
                    PRes::Failed { e } => PRes::Failed { e },
                }
            } else {
                PRes::Failed { e: PemParsingError::MalformedDelimiter }
            }
        },
    }
}

/// Parses one block at `from`, returning it and the position of the
/// first unconsumed byte.
pub fn pem_block(input: &[u8], from: usize) -> (r: Result<(Block, usize), PemParsingError>)
    requires
        from <= input@.len(),
    ensures
        match spec_block(input@, from as int) {
            PRes::Parsed { v, next } => r matches Ok(p) && p.0@ == v && p.1 == next && from < p.1
                <= input@.len(),
            PRes::Failed { e } => r == Err::<(Block, usize), PemParsingError>(e),
        },
{
    let ghost s = input@;
    proof {
        lemma_block_bounds(s, from as int);
    }
    let (label, j1) = match parsers::pem_begin(input, from) {
        Ok(p) => p,
        Err(e) => {
            return Err(e);
        },
    };
    let (hs, j2) = match headers::pem_headers(input, j1) {
        Ok(p) => p,
        Err(e) => {
            return Err(e);
        },
    };
    let (data, j3) = base64::base64(input, j2);
    let j4 = parsers::skip_wsp(input, j3);
    let (_flabel, j5) = match parsers::pem_footer(input, j4) {
        Ok(p) => p,
        Err(e) => {
            return Err(e);
        },
    };
    let b = Block { block_type: label, headers: hs, data };
    Ok((b, j5))
}

/// Parses blocks from `from` until the buffer is exhausted; every
/// repetition must succeed.
pub fn pem_blocks(input: &[u8], from: usize) -> (r: Result<(Vec<Block>, usize), PemParsingError>)
    requires
        from <= input@.len(),
    ensures
        match spec_blocks(input@, from as int) {
            PRes::Parsed { v, next } => r matches Ok(p) && p.0.deep_view() == v && p.1 == next
                && from < p.1 <= input@.len(),
            PRes::Failed { e } => r == Err::<(Vec<Block>, usize), PemParsingError>(e),
        },
{
    let ghost s = input@;
    proof {
        lemma_block_bounds(s, from as int);
    }
    let mut out: Vec<Block> = Vec::new();
    let (b0, j0) = match pem_block(input, from) {
        Ok(p) => p,
        Err(e) => {
            return Err(e);
        },
    };
    let ghost b0_view = b0@;
    let ghost old_seq = out@;
    out.push(b0);
    let ghost mut done: Seq<BlockView> = seq![b0_view];
    proof {
        lemma_deep_of_vec(&out);
        lemma_deep_of_push(old_seq, out@[0]);
        assert(out.deep_view() =~= done);
    }
    let mut j: usize = j0;
    loop
        invariant
            from < j <= s.len(),
            out.deep_view() == done,
            (j as int) < s.len() ==> match spec_blocks(s, j as int) {
                PRes::Parsed { v, next } => spec_blocks(s, from as int) == (PRes::<
                    Seq<BlockView>,
                >::Parsed { v: done + v, next }),
                PRes::Failed { e } => spec_blocks(s, from as int) == (PRes::<
                    Seq<BlockView>,
                >::Failed { e }),
            },
            (j as int) >= s.len() ==> spec_blocks(s, from as int) == (PRes::<
                Seq<BlockView>,
            >::Parsed { v: done, next: j as int }),
        decreases s.len() - j,
    {
        if j >= input.len() {
            return Ok((out, j));
        }
        proof {
            lemma_block_bounds(s, j as int);
        }
        match pem_block(input, j) {
            Err(e) => {
                return Err(e);
            },
            Ok((b, j2)) => {
                let ghost b_view = b@;
                let ghost old_seq2 = out@;
                let ghost old_done = done;
                out.push(b);
                proof {
                    lemma_deep_of_vec(&out);
                    lemma_deep_of_push(old_seq2, out@[out@.len() - 1]);
                    done = done.push(b_view);
                    assert(out.deep_view() =~= done);
                    if (j2 as int) < s.len() {
                        match spec_blocks(s, j2 as int) {
                            PRes::Parsed { v, next } => {
                                assert(old_done + (seq![b_view] + v) =~= done + v);
                            },
                            PRes::Failed { e } => {},
                        }
                    } else {
                        assert(old_done + seq![b_view] =~= done);
                    }
                }
                j = j2;
            },
        }
    }
}

/// Decodes the single block at the start of the buffer; text after
/// the block's footer is ignored.
pub fn decode_block(input: &[u8]) -> (r: Result<Block, PemParsingError>)
    ensures
        match spec_block(input@, 0) {
            PRes::Parsed { v, next } => r matches Ok(b) && b@ == v,
            PRes::Failed { e } => r == Err::<Block, PemParsingError>(e),
        },
{
    match pem_block(input, 0) {
        Ok((b, _rest)) => Ok(b),
        Err(e) => Err(e),
    }
}

/// Decodes all blocks in the buffer; the whole buffer must be
/// consumed, and any failure aborts the parse with no partial result.
pub fn decode_blocks(input: &[u8]) -> (r: Result<Vec<Block>, PemParsingError>)
    ensures
        match spec_blocks(input@, 0) {
            PRes::Parsed { v, next } => r matches Ok(bs) && bs.deep_view() == v,
            PRes::Failed { e } => r == Err::<Vec<Block>, PemParsingError>(e),
        },
{
    match pem_blocks(input, 0) {
        Ok((bs, _rest)) => Ok(bs),
        Err(e) => Err(e),
    }
}

} // verus!
