//! What the bytes of a WAV file mean, byte by byte.
use vstd::prelude::*;

use crate::wav;
use crate::wav::{PcmView, WavErrorView};

verus! {

// ---------------------------------------------------------------------------
// Samples
// ---------------------------------------------------------------------------

/// Eight-bit samples are one byte each, with silence in the middle of its range.
pub proof fn law_eight_bit_samples(data: Seq<u8>, i: int)
    requires
        0 <= i < data.len(),
    ensures
        wav::decoded_samples(data, 1, 8) matches Ok(s) && s.len() == data.len() && s[i] == data[i]
            - 128,
{
    assert(data.len() as int / 1 == data.len());
    assert(data.len() as int % 1 == 0);
    assert(data.subrange(i * 1, i * 1 + 1)[0] == data[i]);
}

/// Sixteen-bit samples are two bytes each, the low one first, in two's complement; a byte too many
/// is refused.
pub proof fn law_sixteen_bit_samples(data: Seq<u8>, i: int)
    requires
        0 <= i,
        2 * i + 1 < data.len(),
    ensures
        data.len() % 2 == 0 ==> (wav::decoded_samples(data, 1, 16) matches Ok(s) && s.len() * 2
            == data.len() && s[i] == data[2 * i] + 256 * data[2 * i + 1] - (if data[2 * i + 1]
            >= 128 {
            65_536int
        } else {
            0
        })),
        data.len() % 2 == 1 ==> wav::decoded_samples(data, 1, 16) == Err::<Seq<int>, WavErrorView>(
            WavErrorView::Truncated,
        ),
{
    let b = data.subrange(i * 2, i * 2 + 2);
    lemma_two_bytes(b);
    assert(b[0] == data[2 * i] && b[1] == data[2 * i + 1]);
}

/// Twenty-four-bit samples are three bytes each, the low one first, in two's complement.
pub proof fn law_twenty_four_bit_samples(data: Seq<u8>, i: int)
    requires
        0 <= i,
        3 * i + 2 < data.len(),
    ensures
        data.len() % 3 == 0 ==> (wav::decoded_samples(data, 1, 24) matches Ok(s) && s.len() * 3
            == data.len() && s[i] == data[3 * i] + 256 * data[3 * i + 1] + 65_536 * data[3 * i + 2]
            - (if data[3 * i + 2] >= 128 {
            16_777_216int
        } else {
            0
        })),
        data.len() % 3 != 0 ==> wav::decoded_samples(data, 1, 24) == Err::<Seq<int>, WavErrorView>(
            WavErrorView::Truncated,
        ),
{
    let b = data.subrange(i * 3, i * 3 + 3);
    reveal_with_fuel(wav::little_endian, 4);
    let c = b.drop_first();
    assert(c[0] == b[1]);
    assert(c.drop_first()[0] == b[2]);
    assert(c.drop_first().drop_first() =~= seq![]);
    assert(b[0] == data[3 * i] && b[1] == data[3 * i + 1] && b[2] == data[3 * i + 2]);
}

/// Thirty-two-bit samples are four bytes each, the low one first: integers in two's complement,
/// floats by the number that their bits write.
pub proof fn law_thirty_two_bit_samples(data: Seq<u8>, i: int)
    requires
        0 <= i,
        4 * i + 3 < data.len(),
    ensures
        ({
            let n = data[4 * i] + 256 * data[4 * i + 1] + 65_536 * data[4 * i + 2] + 16_777_216
                * data[4 * i + 3];
            &&& data.len() % 4 == 0 ==> (wav::decoded_samples(data, 1, 32) matches Ok(s) && s.len()
                * 4 == data.len() && s[i] == n - (if data[4 * i + 3] >= 128 {
                4_294_967_296int
            } else {
                0
            }))
            &&& data.len() % 4 == 0 ==> (wav::decoded_samples(data, 3, 32) matches Ok(s) && s.len()
                * 4 == data.len() && s[i] == n)
            &&& data.len() % 4 != 0 ==> wav::decoded_samples(data, 1, 32) == Err::<
                Seq<int>,
                WavErrorView,
            >(WavErrorView::Truncated) && wav::decoded_samples(data, 3, 32) == Err::<
                Seq<int>,
                WavErrorView,
            >(WavErrorView::Truncated)
        }),
{
    let b = data.subrange(i * 4, i * 4 + 4);
    lemma_four_bytes(b);
    assert(b[0] == data[4 * i] && b[1] == data[4 * i + 1] && b[2] == data[4 * i + 2] && b[3]
        == data[4 * i + 3]);
}

/// No other format is taken: integers of other widths, floats of other widths, or anything that is
/// neither.
pub proof fn law_other_formats_are_refused(data: Seq<u8>, format: int, bits: int)
    requires
        !(format == 1 && (bits == 8 || bits == 16 || bits == 24 || bits == 32)),
        !(format == 3 && bits == 32),
    ensures
        wav::decoded_samples(data, format, bits) matches Err(e) && e is Unsupported,
{
}

proof fn lemma_two_bytes(b: Seq<u8>)
    requires
        b.len() == 2,
    ensures
        wav::little_endian(b) == b[0] + 256 * b[1],
{
    reveal_with_fuel(wav::little_endian, 3);
    assert(b.drop_first()[0] == b[1]);
    assert(b.drop_first().drop_first() =~= seq![]);
}

proof fn lemma_four_bytes(b: Seq<u8>)
    requires
        b.len() == 4,
    ensures
        wav::little_endian(b) == b[0] + 256 * b[1] + 65_536 * b[2] + 16_777_216 * b[3],
{
    reveal_with_fuel(wav::little_endian, 5);
    let c = b.drop_first();
    let d = c.drop_first();
    assert(c[0] == b[1] && d[0] == b[2]);
    assert(d.drop_first()[0] == b[3]);
    assert(d.drop_first().drop_first() =~= seq![]);
}

// ---------------------------------------------------------------------------
// Files
// ---------------------------------------------------------------------------

/// Whether `size` writes the length of `body` in four bytes, the low one first.
pub open spec fn is_size_of(size: Seq<u8>, body: Seq<u8>) -> bool {
    size.len() == 4 && size[0] + 256 * size[1] + 65_536 * size[2] + 16_777_216 * size[3]
        == body.len()
}

/// A chunk: its name, its size, its body, and a pad byte where the body has an odd length.
pub open spec fn chunk_bytes(id: Seq<u8>, size: Seq<u8>, body: Seq<u8>, pad: u8) -> Seq<u8> {
    id + size + body + (if body.len() % 2 == 1 {
        seq![pad]
    } else {
        seq![]
    })
}

/// What a WAV file starts with: `RIFF`, a size that does not count, and `WAVE`.
pub open spec fn file_start(size: Seq<u8>) -> Seq<u8> {
    seq![82u8, 73u8, 70u8, 70u8] + size + seq![87u8, 65u8, 86u8, 69u8]
}

/// The chunks of a file do not depend on what stands before them.
proof fn lemma_chunks_behind(a: Seq<u8>, b: Seq<u8>, pos: int)
    requires
        pos >= 0,
    ensures
        wav::chunks(a + b, a.len() + pos) == wav::chunks(b, pos),
    decreases b.len() - pos + 1,
{
    let w = a + b;
    let at = a.len() + pos;
    if b.len() - pos >= 8 {
        assert(w.subrange(at + 4, at + 8) =~= b.subrange(pos + 4, pos + 8));
        let size = wav::little_endian(b.subrange(pos + 4, pos + 8));
        let end = pos + 8 + size;
        if 0 <= size && end <= b.len() {
            assert(w.subrange(at, at + 4) =~= b.subrange(pos, pos + 4));
            assert(w.subrange(at + 8, a.len() + end) =~= b.subrange(pos + 8, end));
            lemma_chunks_behind(a, b, end + size % 2);
        }
    }
}

/// The first chunk of what follows, and then the rest.
proof fn lemma_first_chunk(id: Seq<u8>, size: Seq<u8>, body: Seq<u8>, pad: u8, rest: Seq<u8>)
    requires
        id.len() == 4,
        is_size_of(size, body),
    ensures
        wav::chunks(chunk_bytes(id, size, body, pad) + rest, 0) == (match wav::chunks(rest, 0) {
            None => None,
            Some(more) => Some(seq![wav::Chunk { id, body }] + more),
        }),
{
    let c = chunk_bytes(id, size, body, pad);
    let w = c + rest;
    assert(w.subrange(4, 8) =~= size);
    lemma_four_bytes(size);
    assert(w.subrange(0, 4) =~= id);
    let n = 8 + body.len() as int;
    assert(w.subrange(8, n) =~= body);
    lemma_chunks_behind(c, rest, 0);
}

/// A chunk that is neither the format nor the data makes no difference: the file decodes as it
/// would without it.
pub proof fn law_other_chunks_make_no_difference(
    riff_size: Seq<u8>,
    id: Seq<u8>,
    size: Seq<u8>,
    body: Seq<u8>,
    pad: u8,
    rest: Seq<u8>,
)
    requires
        riff_size.len() == 4,
        id.len() == 4,
        id != seq![102u8, 109u8, 116u8, 32u8],
        id != seq![100u8, 97u8, 116u8, 97u8],
        is_size_of(size, body),
    ensures
        wav::decoded(file_start(riff_size) + (chunk_bytes(id, size, body, pad) + rest))
            == wav::decoded(file_start(riff_size) + rest),
{
    let start = file_start(riff_size);
    let c = chunk_bytes(id, size, body, pad);
    lemma_file(riff_size, c + rest);
    lemma_file(riff_size, rest);
    lemma_first_chunk(id, size, body, pad, rest);
    lemma_chunks_behind(start, c + rest, 0);
    lemma_chunks_behind(start, rest, 0);
    if wav::chunks(rest, 0) is Some {
        let more = wav::chunks(rest, 0)->0;
        lemma_last_chunk_behind(wav::Chunk { id, body }, more, wav::fmt_id());
        lemma_last_chunk_behind(wav::Chunk { id, body }, more, wav::data_id());
    }
}

proof fn lemma_file(riff_size: Seq<u8>, rest: Seq<u8>)
    requires
        riff_size.len() == 4,
    ensures
        ({
            let w = file_start(riff_size) + rest;
            &&& w.subrange(0, 4) == wav::riff()
            &&& w.subrange(8, 12) == wav::wave()
            &&& w.len() >= 12
            &&& file_start(riff_size).len() == 12
        }),
{
    let w = file_start(riff_size) + rest;
    assert(w.subrange(0, 4) =~= wav::riff());
    assert(w.subrange(8, 12) =~= wav::wave());
}

proof fn lemma_last_chunk_behind(c: wav::Chunk, more: Seq<wav::Chunk>, id: Seq<u8>)
    ensures
        wav::last_chunk(seq![c] + more, id) == (if wav::last_chunk(more, id) is None && c.id == id {
            Some(c.body)
        } else {
            wav::last_chunk(more, id)
        }),
    decreases more.len(),
{
    let all = seq![c] + more;
    if more.len() == 0 {
        assert(all =~= seq![c]);
        assert(all.drop_last() =~= seq![]);
        assert(wav::last_chunk(all.drop_last(), id) is None);
    } else {
        assert(all.last() == more.last());
        assert(all.drop_last() =~= seq![c] + more.drop_last());
        lemma_last_chunk_behind(c, more.drop_last(), id);
    }
}

/// A file of a format chunk and a data chunk decodes to the samples of the data: the first two
/// bytes of the format say what they are, the next two how many channels there are, the next four
/// how many frames a second lasts, and the fifteenth and sixteenth how many bits a sample has,
/// each number with its low byte first.
pub proof fn law_format_and_data_decode(
    riff_size: Seq<u8>,
    fmt_size: Seq<u8>,
    f: Seq<u8>,
    fmt_pad: u8,
    data_size: Seq<u8>,
    data: Seq<u8>,
    data_pad: u8,
)
    requires
        riff_size.len() == 4,
        f.len() >= 16,
        is_size_of(fmt_size, f),
        is_size_of(data_size, data),
    ensures
        ({
            let bytes = file_start(riff_size) + (chunk_bytes(
                seq![102u8, 109u8, 116u8, 32u8],
                fmt_size,
                f,
                fmt_pad,
            ) + chunk_bytes(seq![100u8, 97u8, 116u8, 97u8], data_size, data, data_pad));
            let channels = f[2] + 256 * f[3];
            let read = wav::decoded_samples(data, f[0] + 256 * f[1], f[14] + 256 * f[15]);
            let pcm = wav::decoded(bytes);
            &&& channels == 0 ==> (pcm matches Err(e) && e is Unsupported)
            &&& channels > 0 && read is Err ==> pcm == Err::<PcmView, WavErrorView>(read->Err_0)
            &&& channels > 0 && read is Ok && read->Ok_0.len() as int % channels != 0 ==> pcm
                == Err::<PcmView, WavErrorView>(WavErrorView::Truncated)
            &&& channels > 0 && read is Ok && read->Ok_0.len() as int % channels == 0 ==> (
            pcm matches Ok(p) && p.samples == read->Ok_0 && p.channels == channels && p.sample_rate
                == f[4] + 256 * f[5] + 65_536 * f[6] + 16_777_216 * f[7])
        }),
{
    let fmt_id = seq![102u8, 109u8, 116u8, 32u8];
    let data_id = seq![100u8, 97u8, 116u8, 97u8];
    let a = chunk_bytes(fmt_id, fmt_size, f, fmt_pad);
    let b = chunk_bytes(data_id, data_size, data, data_pad);
    let empty = Seq::<u8>::empty();
    let start = file_start(riff_size);
    let bytes = start + (a + b);
    lemma_file(riff_size, a + b);
    lemma_chunks_behind(start, a + b, 0);
    lemma_first_chunk(fmt_id, fmt_size, f, fmt_pad, b);
    lemma_first_chunk(data_id, data_size, data, data_pad, empty);
    assert(b + empty =~= b);
    assert(wav::chunks(empty, 0) == Some(Seq::<wav::Chunk>::empty()));
    let d = wav::Chunk { id: data_id, body: data };
    let c = wav::Chunk { id: fmt_id, body: f };
    assert(seq![d] + Seq::<wav::Chunk>::empty() =~= seq![d]);
    let cs = seq![c] + seq![d];
    assert(wav::chunks(bytes, 12) == Some(cs));
    assert(fmt_id[0] != data_id[0]);
    assert(seq![d].drop_last() =~= seq![]);
    assert(seq![d].last() == d);
    reveal_with_fuel(wav::last_chunk, 3);
    assert(wav::last_chunk(seq![d], fmt_id) is None);
    assert(wav::last_chunk(seq![d], data_id) == Some(data));
    lemma_last_chunk_behind(c, seq![d], fmt_id);
    lemma_last_chunk_behind(c, seq![d], data_id);
    assert(fmt_id =~= wav::fmt_id());
    assert(data_id =~= wav::data_id());
    lemma_two_bytes(f.subrange(0, 2));
    lemma_two_bytes(f.subrange(2, 4));
    lemma_two_bytes(f.subrange(14, 16));
    lemma_four_bytes(f.subrange(4, 8));
    assert(f.subrange(0, 2)[0] == f[0] && f.subrange(0, 2)[1] == f[1]);
    assert(f.subrange(2, 4)[0] == f[2] && f.subrange(2, 4)[1] == f[3]);
    assert(f.subrange(14, 16)[0] == f[14] && f.subrange(14, 16)[1] == f[15]);
    assert(f.subrange(4, 8)[0] == f[4] && f.subrange(4, 8)[1] == f[5] && f.subrange(4, 8)[2] == f[6]
        && f.subrange(4, 8)[3] == f[7]);
    assert(wav::decoded(bytes) == wav::decoded_chunks(f, data));
}

/// Of two chunks of one name the later one counts.
pub proof fn law_later_chunks_count(
    riff_size: Seq<u8>,
    id: Seq<u8>,
    size: Seq<u8>,
    body: Seq<u8>,
    pad: u8,
    rest: Seq<u8>,
    k: int,
)
    requires
        riff_size.len() == 4,
        id.len() == 4,
        is_size_of(size, body),
        wav::chunks(rest, 0) is Some,
        0 <= k < wav::chunks(rest, 0)->0.len(),
        wav::chunks(rest, 0)->0[k].id == id,
    ensures
        wav::decoded(file_start(riff_size) + (chunk_bytes(id, size, body, pad) + rest))
            == wav::decoded(file_start(riff_size) + rest),
{
    let start = file_start(riff_size);
    let c = chunk_bytes(id, size, body, pad);
    lemma_file(riff_size, c + rest);
    lemma_file(riff_size, rest);
    lemma_first_chunk(id, size, body, pad, rest);
    lemma_chunks_behind(start, c + rest, 0);
    lemma_chunks_behind(start, rest, 0);
    let more = wav::chunks(rest, 0)->0;
    lemma_last_chunk_there(more, k);
    lemma_last_chunk_behind(wav::Chunk { id, body }, more, wav::fmt_id());
    lemma_last_chunk_behind(wav::Chunk { id, body }, more, wav::data_id());
}

proof fn lemma_last_chunk_there(cs: Seq<wav::Chunk>, k: int)
    requires
        0 <= k < cs.len(),
    ensures
        wav::last_chunk(cs, cs[k].id) is Some,
    decreases cs.len(),
{
    if k < cs.len() - 1 {
        assert(cs.drop_last()[k] == cs[k]);
        lemma_last_chunk_there(cs.drop_last(), k);
    }
}

/// What does not start as a WAV file starts is refused, and so is a file that ends before one of
/// its chunks does, or one without a format or without data.
pub proof fn law_other_files_are_refused(
    bytes: Seq<u8>,
    riff_size: Seq<u8>,
    id: Seq<u8>,
    size: Seq<u8>,
    body: Seq<u8>,
    short: Seq<u8>,
)
    requires
        bytes.len() < 12 || bytes.take(4) != seq![82u8, 73u8, 70u8, 70u8] || bytes.subrange(8, 12)
            != seq![87u8, 65u8, 86u8, 69u8],
        riff_size.len() == 4,
        id.len() == 4,
        is_size_of(size, body),
        short.len() < body.len(),
    ensures
        wav::decoded(bytes) == Err::<PcmView, WavErrorView>(WavErrorView::NotRiffWave),
        wav::decoded(file_start(riff_size) + (id + size + short)) == Err::<PcmView, WavErrorView>(
            WavErrorView::Truncated,
        ),
        wav::decoded(file_start(riff_size)) == Err::<PcmView, WavErrorView>(
            WavErrorView::MissingChunk("fmt "@),
        ),
{
    if bytes.len() >= 12 {
        assert(bytes.take(4) =~= bytes.subrange(0, 4));
    }
    let start = file_start(riff_size);
    let empty = Seq::<u8>::empty();
    let w = id + size + short;
    lemma_file(riff_size, w);
    lemma_chunks_behind(start, w, 0);
    assert(w.subrange(4, 8) =~= size);
    lemma_four_bytes(size);
    lemma_file(riff_size, empty);
    assert(start + empty =~= start);
    assert(wav::chunks(start, 12) == Some(Seq::<wav::Chunk>::empty()));
}

} // verus!
