//! The waveform container: parsing a RIFF/WAVE byte stream into its
//! format description, decoding integer PCM samples, and encoding
//! 16-bit PCM samples into a complete, playable file image.

use vstd::prelude::*;

verus! {

/// The format of a waveform file: the fields of its `fmt ` chunk and
/// the position of its `data` chunk.
pub struct WavFormat {
    /// 1 for integer PCM, 3 for IEEE float.
    pub audio_format: u16,
    pub channels: u16,
    pub sample_rate: u32,
    pub bits_per_sample: u16,
    /// Offset of the first sample byte.
    pub data_start: usize,
    /// Length of the data chunk in bytes.
    pub data_len: usize,
}

/// The 16-bit little-endian value at offset `i`.
pub open spec fn le16_at(b: Seq<u8>, i: int) -> int {
    b[i] + 256 * b[i + 1]
}

/// The 32-bit little-endian value at offset `i`.
pub open spec fn le32_at(b: Seq<u8>, i: int) -> int {
    b[i] + 256 * b[i + 1] + 65536 * b[i + 2] + 16777216 * b[i + 3]
}

/// The two little-endian bytes of a 16-bit value.
pub open spec fn le16_bytes(v: int) -> Seq<u8> {
    seq![(v % 256) as u8, ((v / 256) % 256) as u8]
}

/// The four little-endian bytes of a 32-bit value.
pub open spec fn le32_bytes(v: int) -> Seq<u8> {
    seq![
        (v % 256) as u8,
        ((v / 256) % 256) as u8,
        ((v / 65536) % 256) as u8,
        ((v / 16777216) % 256) as u8,
    ]
}

/// The unsigned 16-bit representation of a signed 16-bit sample
/// (two's complement).
pub open spec fn u16_repr(s: i16) -> int {
    if s >= 0 {
        s as int
    } else {
        s + 65536
    }
}

/// The signed 16-bit sample encoded by an unsigned 16-bit value
/// (two's complement).
pub open spec fn i16_of_u16(v: int) -> int {
    if v < 32768 {
        v
    } else {
        v - 65536
    }
}

/// The little-endian byte image of a sample sequence.
pub open spec fn sample_bytes(samples: Seq<i16>) -> Seq<u8> {
    Seq::new(
        2 * samples.len(),
        |i: int|
            if i % 2 == 0 {
                (u16_repr(samples[i / 2]) % 256) as u8
            } else {
                (u16_repr(samples[i / 2]) / 256) as u8
            },
    )
}

/// The 44-byte header of a 16-bit integer PCM waveform file holding
/// `data_len` sample bytes.
pub open spec fn wav_header(sample_rate: int, channels: int, data_len: int) -> Seq<u8> {
    seq![0x52u8, 0x49u8, 0x46u8, 0x46u8]  // "RIFF"
    + le32_bytes(36 + data_len) + seq![0x57u8, 0x41u8, 0x56u8, 0x45u8]  // "WAVE"
    + seq![0x66u8, 0x6du8, 0x74u8, 0x20u8]  // "fmt "
    + le32_bytes(16) + le16_bytes(1) + le16_bytes(channels) + le32_bytes(sample_rate)
        + le32_bytes(sample_rate * channels * 2) + le16_bytes(channels * 2) + le16_bytes(16)
        + seq![0x64u8, 0x61u8, 0x74u8, 0x61u8]  // "data"
    + le32_bytes(data_len)
}

/// A complete 16-bit integer PCM waveform file image.
pub open spec fn spec_encode_wav(samples: Seq<i16>, sample_rate: int, channels: int) -> Seq<u8> {
    wav_header(sample_rate, channels, 2 * samples.len() as int) + sample_bytes(samples)
}

/// Append the two little-endian bytes of `v`.
fn push_le16(out: &mut Vec<u8>, v: u16)
    ensures
        final(out)@ == old(out)@ + le16_bytes(v as int),
{
    let ghost prefix = out@;
    out.push((v % 256) as u8);
    out.push((v / 256) as u8);
    proof {
        assert((v / 256) % 256 == v / 256) by {
            assert(v / 256 < 256);
        }
        assert(out@ =~= prefix + le16_bytes(v as int));
    }
}

/// Append the four little-endian bytes of `v`.
fn push_le32(out: &mut Vec<u8>, v: u32)
    ensures
        final(out)@ == old(out)@ + le32_bytes(v as int),
{
    let ghost prefix = out@;
    out.push((v % 256) as u8);
    out.push(((v / 256) % 256) as u8);
    out.push(((v / 65536) % 256) as u8);
    out.push((v / 16777216) as u8);
    proof {
        assert((v / 16777216) % 256 == v / 16777216) by {
            assert(v / 16777216 < 256);
        }
        assert(out@ =~= prefix + le32_bytes(v as int));
    }
}

/// Encode samples as a complete 16-bit integer PCM waveform file.
pub fn encode_wav(samples: &Vec<i16>, sample_rate: u32, channels: u16) -> (r: Vec<u8>)
    requires
        1 <= channels,
        channels * 2 <= u16::MAX,
        1 <= sample_rate,
        sample_rate * channels * 2 <= u32::MAX,
        44 + 2 * samples@.len() <= u32::MAX,
    ensures
        r@ == spec_encode_wav(samples@, sample_rate as int, channels as int),
{
    let data_len: u32 = 2 * samples.len() as u32;
    let mut out: Vec<u8> = Vec::new();
    out.push(0x52);
    out.push(0x49);
    out.push(0x46);
    out.push(0x46);
    push_le32(&mut out, 36 + data_len);
    out.push(0x57);
    out.push(0x41);
    out.push(0x56);
    out.push(0x45);
    out.push(0x66);
    out.push(0x6d);
    out.push(0x74);
    out.push(0x20);
    push_le32(&mut out, 16);
    push_le16(&mut out, 1);
    push_le16(&mut out, channels);
    push_le32(&mut out, sample_rate);
    push_le32(&mut out, sample_rate * (channels as u32) * 2);
    push_le16(&mut out, channels * 2);
    push_le16(&mut out, 16);
    out.push(0x64);
    out.push(0x61);
    out.push(0x74);
    out.push(0x61);
    push_le32(&mut out, data_len);
    proof {
        assert(out@ =~= wav_header(sample_rate as int, channels as int, 2 * samples@.len() as int));
    }
    let ghost header = out@;
    let n = samples.len();
    let mut i: usize = 0;
    while i < n
        invariant
            0 <= i <= n == samples@.len(),
            out@ == header + sample_bytes(samples@.take(i as int)),
        decreases n - i,
    {
        let ghost before = out@;
        let s = samples[i];
        let u: u16 = if s >= 0 {
            s as u16
        } else {
            ((s as i32) + 65536) as u16
        };
        proof {
            assert(u == u16_repr(samples@[i as int]));
        }
        out.push((u % 256) as u8);
        out.push((u / 256) as u8);
        proof {
            assert((u / 256) % 256 == u / 256) by {
                assert(u / 256 < 256);
            }
            assert(sample_bytes(samples@.take(i as int + 1)) =~= sample_bytes(
                samples@.take(i as int),
            ) + seq![(u16_repr(samples@[i as int]) % 256) as u8, (u16_repr(samples@[i as int])
                / 256) as u8]);
            assert(out@ =~= header + sample_bytes(samples@.take(i as int + 1)));
        }
        i = i + 1;
    }
    proof {
        assert(samples@.take(n as int) =~= samples@);
    }
    out
}

/// The chunk id "RIFF".
pub open spec fn riff_tag() -> Seq<u8> {
    seq![0x52u8, 0x49u8, 0x46u8, 0x46u8]
}

/// The form id "WAVE".
pub open spec fn wave_tag() -> Seq<u8> {
    seq![0x57u8, 0x41u8, 0x56u8, 0x45u8]
}

/// The chunk id "fmt ".
pub open spec fn fmt_tag() -> Seq<u8> {
    seq![0x66u8, 0x6du8, 0x74u8, 0x20u8]
}

/// The chunk id "data".
pub open spec fn data_tag() -> Seq<u8> {
    seq![0x64u8, 0x61u8, 0x74u8, 0x61u8]
}

/// The fields of a `fmt ` chunk: format tag, channel count, sample
/// rate, bits per sample.
pub open spec fn fmt_fields(b: Seq<u8>, p: int) -> (int, int, int, int) {
    (le16_at(b, p + 8), le16_at(b, p + 10), le32_at(b, p + 12), le16_at(b, p + 22))
}

/// Walk the chunk list from offset `p`, with the `fmt ` fields seen so
/// far, to the `data` chunk. Chunks of odd size are padded to the next
/// even offset. The result is the file's format, or nothing when the
/// chunk list is malformed or `data` comes before any `fmt `.
pub open spec fn walk_chunks(b: Seq<u8>, p: int, fmt: Option<(int, int, int, int)>) -> Option<
    WavFormat,
>
    decreases b.len() - p,
{
    if p + 8 > b.len() {
        None
    } else {
        let size = le32_at(b, p + 4);
        if b.subrange(p, p + 4) == data_tag() {
            if p + 8 + size <= b.len() {
                match fmt {
                    Some(f) => Some(
                        WavFormat {
                            audio_format: f.0 as u16,
                            channels: f.1 as u16,
                            sample_rate: f.2 as u32,
                            bits_per_sample: f.3 as u16,
                            data_start: (p + 8) as usize,
                            data_len: size as usize,
                        },
                    ),
                    None => None,
                }
            } else {
                None
            }
        } else if p + 8 + size + size % 2 <= b.len() {
            if b.subrange(p, p + 4) == fmt_tag() && size >= 16 && fmt is None {
                walk_chunks(b, p + 8 + size + size % 2, Some(fmt_fields(b, p)))
            } else {
                walk_chunks(b, p + 8 + size + size % 2, fmt)
            }
        } else {
            None
        }
    }
}

/// Parse a RIFF/WAVE byte stream: its `fmt ` fields and the position of
/// its `data` chunk, or nothing when the stream is malformed.
pub open spec fn spec_parse_wav(b: Seq<u8>) -> Option<WavFormat> {
    if b.len() >= 12 && b.subrange(0, 4) == riff_tag() && b.subrange(8, 12) == wave_tag() {
        walk_chunks(b, 12, None)
    } else {
        None
    }
}

/// The view of the fields of an executable `fmt ` record.
pub open spec fn fmt_view(f: Option<(u16, u16, u32, u16)>) -> Option<(int, int, int, int)> {
    match f {
        Some(t) => Some((t.0 as int, t.1 as int, t.2 as int, t.3 as int)),
        None => None,
    }
}

/// The 16-bit little-endian value at offset `p`.
fn read_le16(bytes: &Vec<u8>, p: usize) -> (r: u16)
    requires
        p + 2 <= bytes@.len(),
    ensures
        r == le16_at(bytes@, p as int),
{
    let n = bytes.len();
    bytes[p] as u16 + 256 * (bytes[p + 1] as u16)
}

/// The 32-bit little-endian value at offset `p`.
fn read_le32(bytes: &Vec<u8>, p: usize) -> (r: u32)
    requires
        p + 4 <= bytes@.len(),
    ensures
        r == le32_at(bytes@, p as int),
{
    let n = bytes.len();
    bytes[p] as u32 + 256 * (bytes[p + 1] as u32) + 65536 * (bytes[p + 2] as u32) + 16777216 * (
    bytes[p + 3] as u32)
}

/// Whether the four bytes at `p` are the given tag.
fn tag_at(bytes: &Vec<u8>, p: usize, t0: u8, t1: u8, t2: u8, t3: u8) -> (r: bool)
    requires
        p + 4 <= bytes@.len(),
    ensures
        r == (bytes@.subrange(p as int, p as int + 4) == seq![t0, t1, t2, t3]),
{
    let n = bytes.len();
    let hit = bytes[p] == t0 && bytes[p + 1] == t1 && bytes[p + 2] == t2 && bytes[p + 3] == t3;
    proof {
        let sub = bytes@.subrange(p as int, p as int + 4);
        if hit {
            assert(sub =~= seq![t0, t1, t2, t3]);
        } else {
            if sub == seq![t0, t1, t2, t3] {
                assert(sub[0] == t0 && sub[1] == t1 && sub[2] == t2 && sub[3] == t3);
            }
        }
    }
    hit
}

/// Walk the chunk list from offset `p` to the `data` chunk.
fn walk_chunks_exec(bytes: &Vec<u8>, p: usize, fmt: Option<(u16, u16, u32, u16)>) -> (r: Option<
    WavFormat,
>)
    requires
        p <= bytes@.len(),
    ensures
        r == walk_chunks(bytes@, p as int, fmt_view(fmt)),
    decreases bytes@.len() - p,
{
    let n = bytes.len();
    if n - p < 8 {
        return None;
    }
    let size32 = read_le32(bytes, p + 4);
    let size = size32 as usize;
    if tag_at(bytes, p, 0x64, 0x61, 0x74, 0x61) {
        if size <= n - (p + 8) {
            match fmt {
                Some(f) => Some(
                    WavFormat {
                        audio_format: f.0,
                        channels: f.1,
                        sample_rate: f.2,
                        bits_per_sample: f.3,
                        data_start: p + 8,
                        data_len: size,
                    },
                ),
                None => None,
            }
        } else {
            None
        }
    } else {
        let pad = size % 2;
        if size <= n - (p + 8) && pad <= n - (p + 8) - size {
            let next = p + 8 + size + pad;
            if tag_at(bytes, p, 0x66, 0x6d, 0x74, 0x20) && size >= 16 && fmt.is_none() {
                let f = (
                    read_le16(bytes, p + 8),
                    read_le16(bytes, p + 10),
                    read_le32(bytes, p + 12),
                    read_le16(bytes, p + 22),
                );
                walk_chunks_exec(bytes, next, Some(f))
            } else {
                walk_chunks_exec(bytes, next, fmt)
            }
        } else {
            None
        }
    }
}

/// Parse a waveform file image: its format fields and the position of
/// its sample data, or nothing when the image is malformed.
pub fn parse_wav(bytes: &Vec<u8>) -> (r: Option<WavFormat>)
    ensures
        r == spec_parse_wav(bytes@),
{
    if bytes.len() < 12 {
        return None;
    }
    if !tag_at(bytes, 0, 0x52, 0x49, 0x46, 0x46) {
        return None;
    }
    if !tag_at(bytes, 8, 0x57, 0x41, 0x56, 0x45) {
        return None;
    }
    walk_chunks_exec(bytes, 12, None)
}

/// The 16-bit signed samples of a little-endian PCM data range.
pub fn decode_samples_i16(bytes: &Vec<u8>, data_start: usize, data_len: usize) -> (r: Vec<i16>)
    requires
        data_start + data_len <= bytes@.len(),
    ensures
        r@.len() == data_len / 2,
        forall|k: int|
            0 <= k < r@.len() ==> #[trigger] r@[k] as int == i16_of_u16(
                le16_at(bytes@, data_start + 2 * k),
            ),
{
    let n = bytes.len();
    let count = data_len / 2;
    let mut r: Vec<i16> = Vec::new();
    let mut k: usize = 0;
    while k < count
        invariant
            0 <= k <= count == data_len / 2,
            n == bytes@.len(),
            data_start + data_len <= bytes@.len(),
            r@.len() == k,
            forall|j: int|
                0 <= j < k ==> #[trigger] r@[j] as int == i16_of_u16(
                    le16_at(bytes@, data_start + 2 * j),
                ),
        decreases count - k,
    {
        let v = read_le16(bytes, data_start + 2 * k);
        let s: i16 = if v < 32768 {
            v as i16
        } else {
            ((v as i32) - 65536) as i16
        };
        r.push(s);
        k = k + 1;
    }
    r
}

/// The 32-bit signed value encoded by an unsigned 32-bit value
/// (two's complement).
pub open spec fn i32_of_u32(v: int) -> int {
    if v < 2147483648 {
        v
    } else {
        v - 4294967296
    }
}

/// The 32-bit signed samples of a little-endian PCM data range.
pub fn decode_samples_i32(bytes: &Vec<u8>, data_start: usize, data_len: usize) -> (r: Vec<i32>)
    requires
        data_start + data_len <= bytes@.len(),
    ensures
        r@.len() == data_len / 4,
        forall|k: int|
            0 <= k < r@.len() ==> #[trigger] r@[k] as int == i32_of_u32(
                le32_at(bytes@, data_start + 4 * k),
            ),
{
    let n = bytes.len();
    let count = data_len / 4;
    let mut r: Vec<i32> = Vec::new();
    let mut k: usize = 0;
    while k < count
        invariant
            0 <= k <= count == data_len / 4,
            n == bytes@.len(),
            data_start + data_len <= bytes@.len(),
            r@.len() == k,
            forall|j: int|
                0 <= j < k ==> #[trigger] r@[j] as int == i32_of_u32(
                    le32_at(bytes@, data_start + 4 * j),
                ),
        decreases count - k,
    {
        let v = read_le32(bytes, data_start + 4 * k);
        let s: i32 = if v < 2147483648 {
            v as i32
        } else {
            ((v as i64) - 4294967296) as i32
        };
        r.push(s);
        k = k + 1;
    }
    r
}

/// An append-only encoder of 16-bit PCM samples: it accumulates the
/// samples of one recording, counts how many were written, and yields
/// the complete waveform file image when finalized.
pub struct WavWriter {
    pub sample_rate: u32,
    pub channels: u16,
    pub samples: Vec<i16>,
}

impl WavWriter {
    /// Well-formed: the format fields and the sample count fit the
    /// container's header fields.
    pub open spec fn wf(self) -> bool {
        &&& 1 <= self.channels
        &&& self.channels * 2 <= u16::MAX
        &&& 1 <= self.sample_rate
        &&& self.sample_rate * self.channels * 2 <= u32::MAX
        &&& 44 + 2 * self.samples@.len() <= u32::MAX
    }

    /// A writer for the given format, with no samples written yet.
    pub fn new(sample_rate: u32, channels: u16) -> (r: WavWriter)
        requires
            1 <= channels,
            channels * 2 <= u16::MAX,
            1 <= sample_rate,
            sample_rate * channels * 2 <= u32::MAX,
        ensures
            r.wf(),
            r.sample_rate == sample_rate,
            r.channels == channels,
            r.samples@.len() == 0,
    {
        WavWriter { sample_rate, channels, samples: Vec::new() }
    }

    /// Append samples. Returns false, leaving the writer unchanged,
    /// when the samples would no longer fit the container's 32-bit
    /// size fields.
    pub fn write_samples(&mut self, samples: &Vec<i16>) -> (ok: bool)
        requires
            old(self).wf(),
        ensures
            final(self).wf(),
            final(self).sample_rate == old(self).sample_rate,
            final(self).channels == old(self).channels,
            ok == (44 + 2 * (old(self).samples@.len() + samples@.len()) <= u32::MAX),
            ok ==> final(self).samples@ == old(self).samples@ + samples@,
            !ok ==> final(self).samples@ == old(self).samples@,
    {
        let n = samples.len();
        let cur = self.samples.len();
        if n > (((u32::MAX - 44) / 2) as usize) - cur {
            return false;
        }
        let mut k: usize = 0;
        while k < n
            invariant
                0 <= k <= n == samples@.len(),
                self.samples@ == old(self).samples@ + samples@.take(k as int),
                self.sample_rate == old(self).sample_rate,
                self.channels == old(self).channels,
                old(self).samples@.len() + n <= (u32::MAX - 44) / 2,
            decreases n - k,
        {
            self.samples.push(samples[k]);
            proof {
                assert(old(self).samples@ + samples@.take(k as int + 1) =~= (old(self).samples@
                    + samples@.take(k as int)).push(samples@[k as int]));
            }
            k = k + 1;
        }
        proof {
            assert(samples@.take(n as int) =~= samples@);
        }
        true
    }

    /// How many samples were written so far.
    pub fn samples_written(&self) -> (r: u64)
        requires
            self.wf(),
        ensures
            r == self.samples@.len(),
    {
        self.samples.len() as u64
    }

    /// The duration of the written audio in milliseconds, rounded down:
    /// the sample count divided by channel count and sample rate.
    pub fn duration_millis(&self) -> (r: u64)
        requires
            self.wf(),
        ensures
            r == self.samples@.len() as int * 1000 / (self.channels as int * self.sample_rate as int),
    {
        let total = self.samples.len() as u64;
        proof {
            vstd::arithmetic::mul::lemma_mul_strictly_positive(
                self.channels as int,
                self.sample_rate as int,
            );
            vstd::arithmetic::mul::lemma_mul_upper_bound(
                self.channels as int,
                0xffff,
                self.sample_rate as int,
                0xffff_ffff,
            );
        }
        (total * 1000) / ((self.channels as u64) * (self.sample_rate as u64))
    }

    /// Finalize: the complete waveform file image of what was written.
    pub fn finalize(self) -> (r: Vec<u8>)
        requires
            self.wf(),
        ensures
            r@ == spec_encode_wav(self.samples@, self.sample_rate as int, self.channels as int),
    {
        encode_wav(&self.samples, self.sample_rate, self.channels)
    }
}

/// Law: the duration reported at finalize is exactly the total sample
/// count divided by channel count and sample rate — in milliseconds,
/// `duration_millis` is the floor of `samples / channels / rate * 1000`.
pub proof fn duration_millis_exact(samples_len: int, channels: int, sample_rate: int)
    requires
        0 <= samples_len,
        1 <= channels,
        1 <= sample_rate,
    ensures
        ({
            let d = samples_len * 1000 / (channels * sample_rate);
            &&& d * (channels * sample_rate) <= samples_len * 1000 < (d + 1) * (channels
                * sample_rate)
        }),
{
    let div = channels * sample_rate;
    vstd::arithmetic::mul::lemma_mul_strictly_positive(channels, sample_rate);
    let x = samples_len * 1000;
    let d = x / div;
    vstd::arithmetic::div_mod::lemma_fundamental_div_mod(x, div);
    vstd::arithmetic::div_mod::lemma_remainder(x, div);
    assert(x == div * d + x % div);
    assert((d + 1) * div == d * div + div) by (nonlinear_arith);
    assert(d * div == div * d) by (nonlinear_arith);
}

/// A 16-bit value is recomposed from its two little-endian bytes.
proof fn lemma_le16_recompose(v: int)
    requires
        0 <= v <= 0xffff,
    ensures
        v % 256 + 256 * ((v / 256) % 256) == v,
{
    vstd::arithmetic::div_mod::lemma_fundamental_div_mod(v, 256);
    assert(v / 256 < 256) by {
        vstd::arithmetic::div_mod::lemma_div_is_ordered(v, 0xffff, 256);
    }
    vstd::arithmetic::div_mod::lemma_small_mod((v / 256) as nat, 256);
}

/// A 32-bit value is recomposed from its four little-endian bytes.
proof fn lemma_le32_recompose(v: int)
    requires
        0 <= v <= 0xffff_ffff,
    ensures
        v % 256 + 256 * ((v / 256) % 256) + 65536 * ((v / 65536) % 256) + 16777216 * ((v
            / 16777216) % 256) == v,
{
    vstd::arithmetic::div_mod::lemma_fundamental_div_mod(v, 256);
    vstd::arithmetic::div_mod::lemma_fundamental_div_mod(v / 256, 256);
    vstd::arithmetic::div_mod::lemma_fundamental_div_mod(v / 65536, 256);
    vstd::arithmetic::div_mod::lemma_div_denominator(v, 256, 256);
    vstd::arithmetic::div_mod::lemma_div_denominator(v, 65536, 256);
    assert(v / 16777216 < 256) by {
        vstd::arithmetic::div_mod::lemma_div_is_ordered(v, 0xffff_ffff, 16777216);
    }
    vstd::arithmetic::div_mod::lemma_small_mod((v / 16777216) as nat, 256);
    assert(v / 16777216 >= 0) by {
        vstd::arithmetic::div_mod::lemma_div_pos_is_pos(v, 16777216);
    }
}

/// The little-endian value of bytes written by `le32_bytes`.
proof fn lemma_le32_bytes_at(b: Seq<u8>, p: int, v: int)
    requires
        0 <= v <= 0xffff_ffff,
        0 <= p,
        p + 4 <= b.len(),
        b[p] == ((v % 256) as u8),
        b[p + 1] == (((v / 256) % 256) as u8),
        b[p + 2] == (((v / 65536) % 256) as u8),
        b[p + 3] == (((v / 16777216) % 256) as u8),
    ensures
        le32_at(b, p) == v,
{
    lemma_le32_recompose(v);
}

/// The little-endian value of bytes written by `le16_bytes`.
proof fn lemma_le16_bytes_at(b: Seq<u8>, p: int, v: int)
    requires
        0 <= v <= 0xffff,
        0 <= p,
        p + 2 <= b.len(),
        b[p] == ((v % 256) as u8),
        b[p + 1] == (((v / 256) % 256) as u8),
    ensures
        le16_at(b, p) == v,
{
    lemma_le16_recompose(v);
}

/// Law: a file image produced by the encoder is a well-formed waveform
/// file, and parsing it back yields exactly the format it was encoded
/// with: integer PCM, the given channel count and sample rate, 16 bits
/// per sample, and all the sample bytes in one data chunk right after
/// the 44-byte header. Written at 16 kHz mono, such a file is already in
/// the transcription model's format, so normalizing it is a no-op.
#[verifier::rlimit(100)]
#[verifier::spinoff_prover]
pub proof fn encode_wav_roundtrip(samples: Seq<i16>, sample_rate: int, channels: int)
    requires
        1 <= channels,
        channels * 2 <= u16::MAX,
        1 <= sample_rate <= u32::MAX,
        sample_rate * channels * 2 <= u32::MAX,
        44 + 2 * samples.len() <= u32::MAX,
    ensures
        spec_parse_wav(spec_encode_wav(samples, sample_rate, channels)) == Some(
            WavFormat {
                audio_format: 1,
                channels: channels as u16,
                sample_rate: sample_rate as u32,
                bits_per_sample: 16,
                data_start: 44,
                data_len: (2 * samples.len()) as usize,
            },
        ),
{
    let dl = 2 * samples.len() as int;
    let h = wav_header(sample_rate, channels, dl);
    let b = spec_encode_wav(samples, sample_rate, channels);
    assert(h.len() == 44);
    assert(sample_bytes(samples).len() == dl);
    assert(b.len() == 44 + dl);
    assert(forall|i: int| 0 <= i < 44 ==> b[i] == h[i]);

    assert(b.subrange(0, 4) =~= riff_tag());
    assert(b.subrange(8, 12) =~= wave_tag());
    assert(b.subrange(12, 16) =~= fmt_tag());
    assert(b.subrange(36, 40) =~= data_tag());
    assert(b.subrange(12, 16) != data_tag()) by {
        if b.subrange(12, 16) == data_tag() {
            assert(b.subrange(12, 16)[0] == 0x64u8);
            assert(fmt_tag()[0] == 0x66u8);
        }
    }

    lemma_le32_bytes_at(b, 4, 36 + dl);
    lemma_le32_bytes_at(b, 16, 16);
    lemma_le16_bytes_at(b, 20, 1);
    lemma_le16_bytes_at(b, 22, channels);
    lemma_le32_bytes_at(b, 24, sample_rate);
    lemma_le16_bytes_at(b, 34, 16);
    lemma_le32_bytes_at(b, 40, dl);

    assert(spec_parse_wav(b) == walk_chunks(b, 12, None));
    assert(fmt_fields(b, 12) == (1int, channels, sample_rate, 16int));
    assert(walk_chunks(b, 12, None) == walk_chunks(
        b,
        36,
        Some((1int, channels, sample_rate, 16int)),
    ));
    assert(le32_at(b, 40) == dl);
    assert(36 + 8 + dl <= b.len());
    assert(walk_chunks(b, 36, Some((1int, channels, sample_rate, 16int))) == Some(
        WavFormat {
            audio_format: 1,
            channels: channels as u16,
            sample_rate: sample_rate as u32,
            bits_per_sample: 16,
            data_start: 44,
            data_len: (2 * samples.len()) as usize,
        },
    ));
}

} // verus!
