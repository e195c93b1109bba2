//! Minimal WAV (RIFF/PCM) decoder.
//!
//! Decodes uncompressed PCM (8/16/24/32-bit integer or 32-bit float) WAV files to their
//! interleaved samples, as the whole numbers that the file holds. To scale them to a signal
//! around zero and to average the channels is left to the caller, since neither gives whole
//! numbers.
use vstd::prelude::*;
use vstd::slice::slice_subrange;

use crate::chars;
use crate::chars::{labelled, push_decimal, quote};

verus! {

/// An error decoding a WAV file.
#[derive(Clone, Debug, PartialEq, Eq)]
pub enum WavError {
    NotRiffWave,
    Truncated,
    MissingChunk(&'static str),
    Unsupported(String),
}

/// A decoding error as mathematical values.
pub enum WavErrorView {
    NotRiffWave,
    Truncated,
    MissingChunk(Seq<char>),
    Unsupported(Seq<char>),
}

impl View for WavError {
    type V = WavErrorView;

    open spec fn view(&self) -> WavErrorView {
        match self {
            WavError::NotRiffWave => WavErrorView::NotRiffWave,
            WavError::Truncated => WavErrorView::Truncated,
            WavError::MissingChunk(c) => WavErrorView::MissingChunk(c@),
            WavError::Unsupported(s) => WavErrorView::Unsupported(s@),
        }
    }
}

/// What is said of an error.
pub open spec fn message(e: WavErrorView) -> Seq<char> {
    match e {
        WavErrorView::NotRiffWave => "not a RIFF/WAVE file"@,
        WavErrorView::Truncated => "truncated WAV file"@,
        WavErrorView::MissingChunk(c) => "WAV is missing the "@ + chars::quoted(c) + " chunk"@,
        WavErrorView::Unsupported(s) => "unsupported WAV format ("@ + s + ")"@,
    }
}

impl WavError {
    /// What is said of the error.
    pub fn message(&self) -> (r: String)
        ensures
            r@ == message(self@),
    {
        match self {
            WavError::NotRiffWave => "not a RIFF/WAVE file".to_owned(),
            WavError::Truncated => "truncated WAV file".to_owned(),
            WavError::MissingChunk(c) => {
                let mut r = labelled("WAV is missing the ", quote(c).as_str());
                r.append(" chunk");
                r
            },
            WavError::Unsupported(s) => {
                let mut r = labelled("unsupported WAV format (", s.as_str());
                r.append(")");
                r
            },
        }
    }
}

/// How a sample is written.
#[derive(Clone, Copy, Debug, PartialEq, Eq, Structural)]
pub enum Encoding {
    /// One byte, 128 for silence.
    Int8,
    /// Two bytes, signed.
    Int16,
    /// Three bytes, signed.
    Int24,
    /// Four bytes, signed.
    Int32,
    /// Four bytes, the bits of a 32-bit IEEE float.
    Float32,
}

impl Encoding {
    /// The number of bytes of a sample.
    pub open spec fn width(self) -> int {
        match self {
            Encoding::Int8 => 1,
            Encoding::Int16 => 2,
            Encoding::Int24 => 3,
            Encoding::Int32 => 4,
            Encoding::Float32 => 4,
        }
    }

    /// The value of the sample that `b` writes: the distance from silence, or for a float the
    /// number that its bits write.
    pub open spec fn value(self, b: Seq<u8>) -> int {
        match self {
            Encoding::Int8 => b[0] - 128,
            Encoding::Int16 => signed(little_endian(b), 0x1_0000),
            Encoding::Int24 => signed(little_endian(b), 0x100_0000),
            Encoding::Int32 => signed(little_endian(b), 0x1_0000_0000),
            Encoding::Float32 => little_endian(b),
        }
    }

    /// The number of bytes of a sample.
    pub fn bytes(self) -> (r: usize)
        ensures
            r == self.width(),
    {
        match self {
            Encoding::Int8 => 1,
            Encoding::Int16 => 2,
            Encoding::Int24 => 3,
            Encoding::Int32 => 4,
            Encoding::Float32 => 4,
        }
    }
}

/// Decoded interleaved PCM samples plus what is needed to play them.
#[derive(Clone, Debug, PartialEq, Eq)]
pub struct Pcm {
    pub encoding: Encoding,
    pub channels: u16,
    pub sample_rate: u32,
    pub samples: Vec<i64>,
}

/// Decoded samples as mathematical values.
#[verifier::ext_equal]
pub struct PcmView {
    pub encoding: Encoding,
    pub channels: int,
    pub sample_rate: int,
    pub samples: Seq<int>,
}

impl View for Pcm {
    type V = PcmView;

    open spec fn view(&self) -> PcmView {
        PcmView {
            encoding: self.encoding,
            channels: self.channels as int,
            sample_rate: self.sample_rate as int,
            samples: sample_values(self.samples@),
        }
    }
}

/// The number that the bytes write, the least significant first.
pub open spec fn little_endian(b: Seq<u8>) -> int
    decreases b.len(),
{
    if b.len() == 0 {
        0
    } else {
        b[0] + 256 * little_endian(b.drop_first())
    }
}

/// The number in two's complement that `n` stands for, of `range` numbers in all.
pub open spec fn signed(n: int, range: int) -> int {
    if n < range / 2 {
        n
    } else {
        n - range
    }
}

/// One chunk: its four-byte name and its body.
#[verifier::ext_equal]
pub struct Chunk {
    pub id: Seq<u8>,
    pub body: Seq<u8>,
}

/// The chunks from `pos` on; none if one of them runs past the end. A chunk of an odd size is
/// followed by a pad byte. What is too short for the head of a chunk is not one.
pub open spec fn chunks(bytes: Seq<u8>, pos: int) -> Option<Seq<Chunk>>
    decreases bytes.len() - pos + 1,
{
    if pos < 0 || bytes.len() - pos < 8 {
        Some(seq![])
    } else {
        let size = little_endian(bytes.subrange(pos + 4, pos + 8));
        let end = pos + 8 + size;
        if size < 0 || end > bytes.len() {
            None
        } else {
            let chunk = Chunk {
                id: bytes.subrange(pos, pos + 4),
                body: bytes.subrange(pos + 8, end),
            };
            match chunks(bytes, end + size % 2) {
                None => None,
                Some(more) => Some(seq![chunk] + more),
            }
        }
    }
}

/// The body of the last chunk of that name.
pub open spec fn last_chunk(cs: Seq<Chunk>, id: Seq<u8>) -> Option<Seq<u8>>
    decreases cs.len(),
{
    if cs.len() == 0 {
        None
    } else if cs.last().id == id {
        Some(cs.last().body)
    } else {
        last_chunk(cs.drop_last(), id)
    }
}

/// `RIFF`.
pub open spec fn riff() -> Seq<u8> {
    seq![82, 73, 70, 70]
}

/// `WAVE`.
pub open spec fn wave() -> Seq<u8> {
    seq![87, 65, 86, 69]
}

/// `fmt `.
pub open spec fn fmt_id() -> Seq<u8> {
    seq![102, 109, 116, 32]
}

/// `data`.
pub open spec fn data_id() -> Seq<u8> {
    seq![100, 97, 116, 97]
}

/// The encoding that a format number (1 for integers, 3 for floats) and a number of bits stand
/// for.
pub open spec fn encoding_of(format: int, bits: int) -> Option<Encoding> {
    if format == 1 && bits == 8 {
        Some(Encoding::Int8)
    } else if format == 1 && bits == 16 {
        Some(Encoding::Int16)
    } else if format == 1 && bits == 24 {
        Some(Encoding::Int24)
    } else if format == 1 && bits == 32 {
        Some(Encoding::Int32)
    } else if format == 3 && bits == 32 {
        Some(Encoding::Float32)
    } else {
        None
    }
}

/// The samples that the data writes, one after the other.
pub open spec fn samples_of(data: Seq<u8>, encoding: Encoding) -> Seq<int> {
    let w = encoding.width();
    Seq::new(
        (data.len() as int / w) as nat,
        |i: int| encoding.value(data.subrange(i * w, i * w + w)),
    )
}

/// The samples that the data writes in a format of so many bits: refused if there is no such
/// encoding, or if the data is no whole number of samples.
pub open spec fn decoded_samples(data: Seq<u8>, format: int, bits: int) -> Result<
    Seq<int>,
    WavErrorView,
> {
    match encoding_of(format, bits) {
        None => Err(
            WavErrorView::Unsupported(
                "format "@ + chars::decimal(format as nat) + ", "@ + chars::decimal(bits as nat)
                    + "-bit"@,
            ),
        ),
        Some(encoding) => if data.len() as int % encoding.width() != 0 {
            Err(WavErrorView::Truncated)
        } else {
            Ok(samples_of(data, encoding))
        },
    }
}

/// The signal that a `fmt ` chunk and a `data` chunk write.
pub open spec fn decoded_chunks(fmt: Seq<u8>, data: Seq<u8>) -> Result<PcmView, WavErrorView> {
    if fmt.len() < 16 {
        Err(WavErrorView::Truncated)
    } else {
        let format = little_endian(fmt.subrange(0, 2));
        let channels = little_endian(fmt.subrange(2, 4));
        let bits = little_endian(fmt.subrange(14, 16));
        if channels == 0 {
            Err(WavErrorView::Unsupported("0 channels"@))
        } else {
            match decoded_samples(data, format, bits) {
                Err(e) => Err(e),
                Ok(samples) => if samples.len() as int % channels != 0 {
                    Err(WavErrorView::Truncated)
                } else {
                    Ok(
                        PcmView {
                            encoding: encoding_of(format, bits)->0,
                            channels,
                            sample_rate: little_endian(fmt.subrange(4, 8)),
                            samples,
                        },
                    )
                },
            }
        }
    }
}

/// The signal that the bytes of a WAV file write.
pub open spec fn decoded(bytes: Seq<u8>) -> Result<PcmView, WavErrorView> {
    if bytes.len() < 12 || bytes.subrange(0, 4) != riff() || bytes.subrange(8, 12) != wave() {
        Err(WavErrorView::NotRiffWave)
    } else {
        match chunks(bytes, 12) {
            None => Err(WavErrorView::Truncated),
            Some(cs) => match (last_chunk(cs, fmt_id()), last_chunk(cs, data_id())) {
                (None, _) => Err(WavErrorView::MissingChunk("fmt "@)),
                (Some(fmt), None) => Err(WavErrorView::MissingChunk("data"@)),
                (Some(fmt), Some(data)) => decoded_chunks(fmt, data),
            },
        }
    }
}

/// The number that two bytes write.
fn read_u16(b: &[u8], at: usize) -> (r: u16)
    requires
        at + 2 <= b@.len(),
    ensures
        r == little_endian(b@.subrange(at as int, at + 2)),
{
    proof {
        let s = b@.subrange(at as int, at + 2);
        reveal_with_fuel(little_endian, 3);
        assert(s.drop_first()[0] == b@[at + 1]);
        assert(s.drop_first().drop_first() =~= seq![]);
    }
    b[at] as u16 + 256 * (b[at + 1] as u16)
}

/// The number that three bytes write.
fn read_u24(b: &[u8], at: usize) -> (r: u32)
    requires
        at + 3 <= b@.len(),
    ensures
        r == little_endian(b@.subrange(at as int, at + 3)),
        r < 0x100_0000,
{
    proof {
        let s = b@.subrange(at as int, at + 3);
        reveal_with_fuel(little_endian, 4);
        assert(s.drop_first()[0] == b@[at + 1]);
        assert(s.drop_first().drop_first()[0] == b@[at + 2]);
        assert(s.drop_first().drop_first().drop_first() =~= seq![]);
    }
    b[at] as u32 + 256 * (b[at + 1] as u32 + 256 * (b[at + 2] as u32))
}

/// The number that four bytes write.
fn read_u32(b: &[u8], at: usize) -> (r: u32)
    requires
        at + 4 <= b@.len(),
    ensures
        r == little_endian(b@.subrange(at as int, at + 4)),
{
    proof {
        let s = b@.subrange(at as int, at + 4);
        reveal_with_fuel(little_endian, 5);
        assert(s.drop_first()[0] == b@[at + 1]);
        assert(s.drop_first().drop_first()[0] == b@[at + 2]);
        assert(s.drop_first().drop_first().drop_first()[0] == b@[at + 3]);
        assert(s.drop_first().drop_first().drop_first().drop_first() =~= seq![]);
    }
    b[at] as u32 + 256 * (b[at + 1] as u32 + 256 * (b[at + 2] as u32 + 256 * (b[at + 3] as u32)))
}

/// Whether the four bytes at `at` are these.
fn named(b: &[u8], at: usize, id: [u8; 4]) -> (r: bool)
    requires
        at + 4 <= b@.len(),
    ensures
        r == (b@.subrange(at as int, at + 4) == id@),
{
    let r = b[at] == id[0] && b[at + 1] == id[1] && b[at + 2] == id[2] && b[at + 3] == id[3];
    proof {
        let s = b@.subrange(at as int, at + 4);
        assert(s[0] == b@[at as int] && s[1] == b@[at + 1] && s[2] == b@[at + 2] && s[3] == b@[at
            + 3]);
        if r {
            assert(s =~= id@);
        }
    }
    r
}

/// The value of the sample at `at`.
fn read_sample(data: &[u8], at: usize, encoding: Encoding) -> (r: i64)
    requires
        at + encoding.width() <= data@.len(),
    ensures
        r == encoding.value(data@.subrange(at as int, at + encoding.width())),
{
    match encoding {
        Encoding::Int8 => data[at] as i64 - 128,
        Encoding::Int16 => {
            let n: i64 = read_u16(data, at) as i64;
            if n < 0x8000 {
                n
            } else {
                n - 0x1_0000
            }
        },
        Encoding::Int24 => {
            let n: i64 = read_u24(data, at) as i64;
            if n < 0x80_0000 {
                n
            } else {
                n - 0x100_0000
            }
        },
        Encoding::Int32 => {
            let n: i64 = read_u32(data, at) as i64;
            if n < 0x8000_0000 {
                n
            } else {
                n - 0x1_0000_0000
            }
        },
        Encoding::Float32 => read_u32(data, at) as i64,
    }
}

/// Read the samples of data that is a whole number of them.
fn read_samples(data: &[u8], encoding: Encoding) -> (r: Vec<i64>)
    requires
        data@.len() as int % encoding.width() == 0,
    ensures
        r@.len() == samples_of(data@, encoding).len(),
        forall|i: int| 0 <= i < r@.len() ==> #[trigger] r@[i] == samples_of(data@, encoding)[i],
{
    let w: usize = encoding.bytes();
    let mut out: Vec<i64> = Vec::new();
    let mut at: usize = 0;
    let ghost n = data@.len() as int / w as int;
    proof {
        vstd::arithmetic::div_mod::lemma_fundamental_div_mod(data@.len() as int, w as int);
        assert(w * n == n * w) by (nonlinear_arith);
    }
    while at < data.len()
        invariant
            w == encoding.width(),
            1 <= w,
            data@.len() == n * w,
            n == data@.len() as int / w as int,
            at == out@.len() * w,
            out@.len() <= n,
            forall|i: int|
                0 <= i < out@.len() ==> #[trigger] out@[i] == samples_of(data@, encoding)[i],
        decreases data.len() - at,
    {
        let ghost k = out@.len() as int;
        proof {
            assert(k < n) by (nonlinear_arith)
                requires
                    k * w < n * w,
                    1 <= w,
            ;
            assert((k + 1) * w == k * w + w) by (nonlinear_arith);
            assert((k + 1) * w <= n * w) by (nonlinear_arith)
                requires
                    k + 1 <= n,
                    1 <= w,
            ;
        }
        let len: usize = data.len();
        assert(at + w <= len);
        out.push(read_sample(data, at, encoding));
        at += w;
    }
    proof {
        assert(out@.len() == n) by (nonlinear_arith)
            requires
                out@.len() * w >= n * w,
                out@.len() <= n,
                1 <= w,
        ;
    }
    out
}

/// The samples as mathematical values.
pub open spec fn sample_values(samples: Seq<i64>) -> Seq<int> {
    Seq::new(samples.len(), |i: int| samples[i] as int)
}

/// The samples that the data writes, with their encoding.
fn decode_encoded(data: &[u8], format: u16, bits: u16) -> (r: Result<(Encoding, Vec<i64>), WavError>)
    ensures
        match r {
            Ok((encoding, samples)) => encoding_of(format as int, bits as int) == Some(encoding)
                && decoded_samples(data@, format as int, bits as int) == Ok::<
                Seq<int>,
                WavErrorView,
            >(sample_values(samples@)),
            Err(e) => decoded_samples(data@, format as int, bits as int) == Err::<
                Seq<int>,
                WavErrorView,
            >(e@),
        },
{
    let encoding = match sample_encoding(format, bits) {
        Some(e) => e,
        None => {
            let mut s = "format ".to_owned();
            push_decimal(&mut s, format as u64);
            s.append(", ");
            push_decimal(&mut s, bits as u64);
            s.append("-bit");
            return Err(WavError::Unsupported(s));
        },
    };
    if data.len() % encoding.bytes() != 0 {
        return Err(WavError::Truncated);
    }
    let samples = read_samples(data, encoding);
    assert(sample_values(samples@) =~= samples_of(data@, encoding));
    Ok((encoding, samples))
}

/// Convert raw sample bytes to the whole numbers that they write. Rejects formats that are not
/// supported, and data that isn't a whole number of samples.
pub fn decode_samples(data: &[u8], format: u16, bits: u16) -> (r: Result<Vec<i64>, WavError>)
    ensures
        match r {
            Ok(samples) => decoded_samples(data@, format as int, bits as int) == Ok::<
                Seq<int>,
                WavErrorView,
            >(sample_values(samples@)),
            Err(e) => decoded_samples(data@, format as int, bits as int) == Err::<
                Seq<int>,
                WavErrorView,
            >(e@),
        },
{
    match decode_encoded(data, format, bits) {
        Ok((_, samples)) => Ok(samples),
        Err(e) => Err(e),
    }
}

/// One more chunk at the end.
proof fn lemma_last_chunk_push(cs: Seq<Chunk>, c: Chunk, id: Seq<u8>)
    ensures
        last_chunk(cs.push(c), id) == if c.id == id {
            Some(c.body)
        } else {
            last_chunk(cs, id)
        },
{
    assert(cs.push(c).drop_last() =~= cs);
}

/// Whether `body` is this body, or neither is there.
spec fn is_body(body: Option<&[u8]>, of: Option<Seq<u8>>) -> bool {
    match body {
        Some(b) => of == Some(b@),
        None => of is None,
    }
}

/// The bodies of the last `fmt ` and the last `data` chunk; none if a chunk runs past the end.
fn find_chunks(bytes: &[u8]) -> (r: Option<(Option<&[u8]>, Option<&[u8]>)>)
    requires
        12 <= bytes@.len(),
    ensures
        match r {
            None => chunks(bytes@, 12) is None,
            Some((fmt, data)) => chunks(bytes@, 12) matches Some(cs) && is_body(
                fmt,
                last_chunk(cs, fmt_id()),
            ) && is_body(data, last_chunk(cs, data_id())),
        },
{
    let mut fmt: Option<&[u8]> = None;
    let mut data: Option<&[u8]> = None;
    let mut pos: usize = 12;
    let ghost mut done: Seq<Chunk> = seq![];
    let len: usize = bytes.len();
    proof {
        if chunks(bytes@, 12) is Some {
            assert(done + chunks(bytes@, 12)->0 =~= chunks(bytes@, 12)->0);
        }
    }
    while pos <= len && len - pos >= 8
        invariant
            len == bytes@.len(),
            12 <= pos,
            chunks(bytes@, 12) is None == chunks(bytes@, pos as int) is None,
            chunks(bytes@, 12) matches Some(cs) ==> cs == done + chunks(bytes@, pos as int)->0,
            is_body(fmt, last_chunk(done, fmt_id())),
            is_body(data, last_chunk(done, data_id())),
        decreases len - pos + 1,
    {
        let size: usize = read_u32(bytes, pos + 4) as usize;
        let start: usize = pos + 8;
        if size > len - start {
            return None;
        }
        let end: usize = start + size;
        let body = slice_subrange(bytes, start, end);
        let is_fmt = named(bytes, pos, [102, 109, 116, 32]);
        let is_data = named(bytes, pos, [100, 97, 116, 97]);
        let ghost chunk = Chunk {
            id: bytes@.subrange(pos as int, pos + 4),
            body: bytes@.subrange(pos + 8, pos + 8 + size),
        };
        proof {
            assert([102u8, 109, 116, 32]@ =~= fmt_id());
            assert([100u8, 97, 116, 97]@ =~= data_id());
            assert(fmt_id()[0] != data_id()[0]);
            lemma_last_chunk_push(done, chunk, fmt_id());
            lemma_last_chunk_push(done, chunk, data_id());
        }
        if is_fmt {
            fmt = Some(body);
        } else if is_data {
            data = Some(body);
        }
        let ghost before = pos as int;
        // Chunks are word-aligned: an odd size is followed by a pad byte. Past the end there
        // is nothing more to read.
        if end == len {
            proof {
                let more = chunks(bytes@, end + size % 2);
                assert(more == Some(Seq::<Chunk>::empty()));
                assert(chunks(bytes@, before) == Some(seq![chunk] + Seq::<Chunk>::empty()));
                assert(done + (seq![chunk] + Seq::<Chunk>::empty()) =~= done.push(chunk));
                assert(chunks(bytes@, 12)->0 == done.push(chunk));
            }
            return Some((fmt, data));
        }
        pos = end + size % 2;
        proof {
            if chunks(bytes@, pos as int) is Some {
                let more = chunks(bytes@, pos as int)->0;
                assert(chunks(bytes@, before) == Some(seq![chunk] + more));
                assert(done + (seq![chunk] + more) =~= done.push(chunk) + more);
            } else {
                assert(chunks(bytes@, before) is None);
            }
            done = done.push(chunk);
        }
    }
    proof {
        assert(chunks(bytes@, pos as int) == Some(Seq::<Chunk>::empty()));
        assert(done + Seq::<Chunk>::empty() =~= done);
    }
    Some((fmt, data))
}

/// The signal that a `fmt ` chunk and a `data` chunk write.
fn decode_chunks(fmt: &[u8], data: &[u8]) -> (r: Result<Pcm, WavError>)
    ensures
        match r {
            Ok(pcm) => decoded_chunks(fmt@, data@) == Ok::<PcmView, WavErrorView>(pcm@),
            Err(e) => decoded_chunks(fmt@, data@) == Err::<PcmView, WavErrorView>(e@),
        },
{
    if fmt.len() < 16 {
        return Err(WavError::Truncated);
    }
    let format: u16 = read_u16(fmt, 0);
    let channels: u16 = read_u16(fmt, 2);
    if channels == 0 {
        return Err(WavError::Unsupported("0 channels".to_owned()));
    }
    let sample_rate: u32 = read_u32(fmt, 4);
    let bits: u16 = read_u16(fmt, 14);
    let (encoding, samples) = match decode_encoded(data, format, bits) {
        Ok(p) => p,
        Err(e) => return Err(e),
    };
    if samples.len() % channels as usize != 0 {
        return Err(WavError::Truncated);
    }
    Ok(Pcm { encoding, channels, sample_rate, samples })
}

/// The encoding that a format number and a number of bits stand for.
fn sample_encoding(format: u16, bits: u16) -> (r: Option<Encoding>)
    ensures
        r == encoding_of(format as int, bits as int),
{
    if format == 1 && bits == 8 {
        Some(Encoding::Int8)
    } else if format == 1 && bits == 16 {
        Some(Encoding::Int16)
    } else if format == 1 && bits == 24 {
        Some(Encoding::Int24)
    } else if format == 1 && bits == 32 {
        Some(Encoding::Int32)
    } else if format == 3 && bits == 32 {
        Some(Encoding::Float32)
    } else {
        None
    }
}

/// Decode a WAV file into its interleaved PCM samples.
pub fn decode(bytes: &[u8]) -> (r: Result<Pcm, WavError>)
    ensures
        match r {
            Ok(pcm) => decoded(bytes@) == Ok::<PcmView, WavErrorView>(pcm@),
            Err(e) => decoded(bytes@) == Err::<PcmView, WavErrorView>(e@),
        },
{
    proof {
        assert([82u8, 73, 70, 70]@ =~= riff());
        assert([87u8, 65, 86, 69]@ =~= wave());
    }
    if bytes.len() < 12 || !named(bytes, 0, [82, 73, 70, 70]) || !named(
        bytes,
        8,
        [87, 65, 86, 69],
    ) {
        return Err(WavError::NotRiffWave);
    }
    match find_chunks(bytes) {
        None => Err(WavError::Truncated),
        Some((None, _)) => Err(WavError::MissingChunk("fmt ")),
        Some((Some(fmt), None)) => Err(WavError::MissingChunk("data")),
        Some((Some(fmt), Some(data))) => decode_chunks(fmt, data),
    }
}

/// The samples of a signal are a whole number of frames, and each is within the range of its
/// encoding.
pub proof fn law_decoded_samples_are_whole_frames(bytes: Seq<u8>)
    ensures
        decoded(bytes) matches Ok(pcm) ==> {
            &&& pcm.channels > 0
            &&& pcm.samples.len() as int % pcm.channels == 0
            &&& forall|i: int|
                0 <= i < pcm.samples.len() ==> match pcm.encoding {
                    Encoding::Int8 => -0x80 <= #[trigger] pcm.samples[i] < 0x80,
                    Encoding::Int16 => -0x8000 <= pcm.samples[i] < 0x8000,
                    Encoding::Int24 => -0x80_0000 <= pcm.samples[i] < 0x80_0000,
                    Encoding::Int32 => -0x8000_0000 <= pcm.samples[i] < 0x8000_0000,
                    Encoding::Float32 => 0 <= pcm.samples[i] < 0x1_0000_0000,
                }
        },
{
    if decoded(bytes) is Ok {
        let pcm = decoded(bytes)->Ok_0;
        let cs = chunks(bytes, 12)->0;
        let fmt = last_chunk(cs, fmt_id())->0;
        let data = last_chunk(cs, data_id())->0;
        lemma_little_endian(fmt.subrange(2, 4));
        let w = pcm.encoding.width();
        assert forall|i: int| 0 <= i < pcm.samples.len() implies match pcm.encoding {
            Encoding::Int8 => -0x80 <= #[trigger] pcm.samples[i] < 0x80,
            Encoding::Int16 => -0x8000 <= pcm.samples[i] < 0x8000,
            Encoding::Int24 => -0x80_0000 <= pcm.samples[i] < 0x80_0000,
            Encoding::Int32 => -0x8000_0000 <= pcm.samples[i] < 0x8000_0000,
            Encoding::Float32 => 0 <= pcm.samples[i] < 0x1_0000_0000,
        } by {
            vstd::arithmetic::div_mod::lemma_fundamental_div_mod(data.len() as int, w);
            let n = data.len() as int / w;
            assert(i * w + w <= w * n) by (nonlinear_arith)
                requires
                    i + 1 <= n,
                    w >= 1,
            ;
            assert(0 <= i * w) by (nonlinear_arith)
                requires
                    0 <= i,
                    1 <= w,
            ;
            let b = data.subrange(i * w, i * w + w);
            lemma_little_endian(b);
        }
    }
}

/// How large the number that up to four bytes write can be.
proof fn lemma_little_endian(b: Seq<u8>)
    requires
        b.len() <= 4,
    ensures
        0 <= little_endian(b),
        b.len() == 2 ==> little_endian(b) < 0x1_0000,
        b.len() == 3 ==> little_endian(b) < 0x100_0000,
        b.len() == 4 ==> little_endian(b) < 0x1_0000_0000,
{
    reveal_with_fuel(little_endian, 5);
}

} // verus!
