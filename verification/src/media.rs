//! Media: element states, PCM WAV files as integer samples, and the test pattern of video frames.
use vstd::prelude::*;
use crate::text::{decimal, push_decimal, push_str};

verus! {

#[derive(Debug, Clone, Copy, PartialEq, Eq, Structural)]
pub enum ReadyState {
    HaveNothing,
    HaveMetadata,
    HaveCurrentData,
    HaveFutureData,
    HaveEnoughData,
}

#[derive(Debug, Clone, Copy, PartialEq, Eq, Structural)]
pub enum NetworkState {
    Empty,
    Idle,
    Loading,
    NoSource,
}

#[derive(Debug, Clone, Copy, PartialEq, Eq, Structural)]
pub enum MediaType {
    Audio,
    Video,
}

#[derive(Debug, Clone, PartialEq)]
pub enum MediaError {
    InvalidWavHeader,
    UnsupportedFormat(String),
    BufferTooShort,
    DecodeError(String),
}

impl ReadyState {
    /// The numeric `readyState` of the HTML media element.
    pub fn value(&self) -> (n: u8)
        ensures
            n == match self {
                ReadyState::HaveNothing => 0u8,
                ReadyState::HaveMetadata => 1u8,
                ReadyState::HaveCurrentData => 2u8,
                ReadyState::HaveFutureData => 3u8,
                ReadyState::HaveEnoughData => 4u8,
            },
    {
        match self {
            ReadyState::HaveNothing => 0,
            ReadyState::HaveMetadata => 1,
            ReadyState::HaveCurrentData => 2,
            ReadyState::HaveFutureData => 3,
            ReadyState::HaveEnoughData => 4,
        }
    }
}

impl NetworkState {
    /// The numeric `networkState` of the HTML media element.
    pub fn value(&self) -> (n: u8)
        ensures
            n == match self {
                NetworkState::Empty => 0u8,
                NetworkState::Idle => 1u8,
                NetworkState::Loading => 2u8,
                NetworkState::NoSource => 3u8,
            },
    {
        match self {
            NetworkState::Empty => 0,
            NetworkState::Idle => 1,
            NetworkState::Loading => 2,
            NetworkState::NoSource => 3,
        }
    }
}

/// Little-endian 16-bit value at `o`.
pub open spec fn le16(b: Seq<u8>, o: int) -> nat {
    b[o] as nat + 256 * b[o + 1] as nat
}

/// Little-endian 32-bit value at `o`.
pub open spec fn le32(b: Seq<u8>, o: int) -> nat {
    le16(b, o) + 65536 * le16(b, o + 2)
}

/// Two bytes read as a little-endian two's-complement sample.
pub open spec fn sample16(lo: u8, hi: u8) -> i16 {
    let u = lo as int + 256 * hi as int;
    (if u >= 32768 {
        u - 65536
    } else {
        u
    }) as i16
}

/// What the chunk walk has found so far: the `fmt ` fields and the extent of the `data` chunk.
pub struct WavScan {
    pub format: u16,
    pub channels: u16,
    pub sample_rate: u32,
    pub bits: u16,
    pub data: Option<(int, int)>,
}

pub open spec fn is_tag(b: Seq<u8>, o: int, t: Seq<u8>) -> bool {
    b.subrange(o, o + 4) == t
}

pub open spec fn tag_riff() -> Seq<u8> {
    seq![0x52u8, 0x49u8, 0x46u8, 0x46u8]
}

pub open spec fn tag_wave() -> Seq<u8> {
    seq![0x57u8, 0x41u8, 0x56u8, 0x45u8]
}

pub open spec fn tag_fmt() -> Seq<u8> {
    seq![0x66u8, 0x6du8, 0x74u8, 0x20u8]
}

pub open spec fn tag_data() -> Seq<u8> {
    seq![0x64u8, 0x61u8, 0x74u8, 0x61u8]
}

/// Walks the chunks from `off`: each is a 4-byte id, a 32-bit size and the
/// body, padded to an even length. A `fmt ` body of at least 16 bytes sets
/// the format fields, a `data` body is remembered; a chunk that runs past the
/// end stops the walk, and a `data` one is then cut to the bytes present.
pub open spec fn scan(b: Seq<u8>, off: int, st: WavScan) -> WavScan
    decreases b.len() - off,
{
    if off < 0 || off + 8 > b.len() {
        st
    } else {
        let size = le32(b, off + 4);
        let o = off + 8;
        if o + size > b.len() {
            if is_tag(b, off, tag_data()) {
                WavScan { data: Some((o, b.len() as int)), ..st }
            } else {
                st
            }
        } else {
            let st2 = if is_tag(b, off, tag_fmt()) {
                if size >= 16 {
                    WavScan {
                        format: le16(b, o) as u16,
                        channels: le16(b, o + 2) as u16,
                        sample_rate: le32(b, o + 4) as u32,
                        bits: le16(b, o + 14) as u16,
                        ..st
                    }
                } else {
                    st
                }
            } else if is_tag(b, off, tag_data()) {
                WavScan { data: Some((o, o + size)), ..st }
            } else {
                st
            };
            let o2 = o + size;
            let o3 = if size % 2 != 0 && o2 < b.len() {
                o2 + 1
            } else {
                o2
            };
            scan(b, o3, st2)
        }
    }
}

pub open spec fn scan_start() -> WavScan {
    WavScan { format: 1, channels: 1, sample_rate: 44100, bits: 16, data: None }
}

/// The samples of 16-bit PCM data: each pair of bytes, a trailing odd byte ignored.
pub open spec fn pcm16(d: Seq<u8>) -> Seq<i16> {
    Seq::new(d.len() / 2, |i: int| sample16(d[2 * i], d[2 * i + 1]))
}

/// The samples of 8-bit PCM data, moved to be centred on 0.
pub open spec fn pcm8(d: Seq<u8>) -> Seq<i16> {
    Seq::new(d.len(), |i: int| (d[i] as int - 128) as i16)
}

/// Decoded PCM audio: interleaved integer samples of the given width.
#[derive(Debug, Clone, PartialEq)]
pub struct PcmAudio {
    pub channels: usize,
    pub sample_rate: u32,
    pub bits_per_sample: u16,
    pub samples: Vec<i16>,
}

pub struct PcmView {
    pub channels: usize,
    pub sample_rate: u32,
    pub bits_per_sample: u16,
    pub samples: Seq<i16>,
}

impl View for PcmAudio {
    type V = PcmView;

    open spec fn view(&self) -> PcmView {
        PcmView {
            channels: self.channels,
            sample_rate: self.sample_rate,
            bits_per_sample: self.bits_per_sample,
            samples: self.samples@,
        }
    }
}

/// The errors a WAV file can be refused with.
pub enum WavFault {
    TooShort,
    BadHeader,
    Format(u16),
    Bits(u16),
}

/// What a byte stream decodes to as a PCM WAV file.
pub open spec fn decode_spec(b: Seq<u8>) -> Result<PcmView, WavFault> {
    if b.len() < 44 {
        Err(WavFault::TooShort)
    } else if !is_tag(b, 0, tag_riff()) || !is_tag(b, 8, tag_wave()) {
        Err(WavFault::BadHeader)
    } else {
        let st = scan(b, 12, scan_start());
        if st.format != 1 {
            Err(WavFault::Format(st.format))
        } else {
            match st.data {
                None => Err(WavFault::BadHeader),
                Some((s, e)) => {
                    let d = b.subrange(s, e);
                    let ch = (if st.channels == 0 {
                        1u16
                    } else {
                        st.channels
                    }) as usize;
                    if st.bits == 16 {
                        Ok(PcmView { channels: ch, sample_rate: st.sample_rate, bits_per_sample: 16, samples: pcm16(d) })
                    } else if st.bits == 8 {
                        Ok(PcmView { channels: ch, sample_rate: st.sample_rate, bits_per_sample: 8, samples: pcm8(d) })
                    } else {
                        Err(WavFault::Bits(st.bits))
                    }
                },
            }
        }
    }
}

/// The error value and text of each refusal.
pub open spec fn fault_matches(e: MediaError, f: WavFault) -> bool {
    match (e, f) {
        (MediaError::BufferTooShort, WavFault::TooShort) => true,
        (MediaError::InvalidWavHeader, WavFault::BadHeader) => true,
        (MediaError::UnsupportedFormat(m), WavFault::Format(n)) => m@ == "WAV audio format "@ + decimal(n as nat),
        (MediaError::UnsupportedFormat(m), WavFault::Bits(n)) => m@ == decimal(n as nat) + " bits per sample"@,
        _ => false,
    }
}

fn read16(b: &[u8], o: usize) -> (v: u16)
    requires
        o + 2 <= b.len(),
    ensures
        v as nat == le16(b@, o as int),
{
    b[o] as u16 + 256 * (b[o + 1] as u16)
}

fn read32(b: &[u8], o: usize) -> (v: u32)
    requires
        o + 4 <= b.len(),
    ensures
        v as nat == le32(b@, o as int),
{
    let lo = read16(b, o) as u32;
    let hi = read16(b, o + 2) as u32;
    lo + 65536 * hi
}

fn tag_at(b: &[u8], o: usize, t: [u8; 4]) -> (r: bool)
    requires
        o + 4 <= b@.len(),
    ensures
        r == is_tag(b@, o as int, t@),
{
    let r = b[o] == t[0] && b[o + 1] == t[1] && b[o + 2] == t[2] && b[o + 3] == t[3];
    if r {
        assert(b@.subrange(o as int, o + 4) =~= t@);
    } else {
        assert(b@.subrange(o as int, o + 4) != t@) by {
            if b@.subrange(o as int, o + 4) == t@ {
                assert(b@.subrange(o as int, o + 4)[0] == t@[0]);
                assert(b@.subrange(o as int, o + 4)[1] == t@[1]);
                assert(b@.subrange(o as int, o + 4)[2] == t@[2]);
                assert(b@.subrange(o as int, o + 4)[3] == t@[3]);
            }
        }
    }
    r
}

/// Decodes a 16-bit or 8-bit PCM RIFF/WAVE byte stream into integer samples.
pub fn decode_wav(bytes: &[u8]) -> (r: Result<PcmAudio, MediaError>)
    ensures
        match (r, decode_spec(bytes@)) {
            (Ok(a), Ok(v)) => a@ == v,
            (Err(e), Err(f)) => fault_matches(e, f),
            _ => false,
        },
{
    if bytes.len() < 44 {
        return Err(MediaError::BufferTooShort);
    }
    if !tag_at(bytes, 0, [0x52, 0x49, 0x46, 0x46]) || !tag_at(bytes, 8, [0x57, 0x41, 0x56, 0x45]) {
        assert([0x52u8, 0x49u8, 0x46u8, 0x46u8]@ =~= tag_riff());
        assert([0x57u8, 0x41u8, 0x56u8, 0x45u8]@ =~= tag_wave());
        return Err(MediaError::InvalidWavHeader);
    }
    assert([0x52u8, 0x49u8, 0x46u8, 0x46u8]@ =~= tag_riff());
    assert([0x57u8, 0x41u8, 0x56u8, 0x45u8]@ =~= tag_wave());
    let ghost b = bytes@;
    let mut offset: usize = 12;
    let mut format: u16 = 1;
    let mut channels: u16 = 1;
    let mut sample_rate: u32 = 44100;
    let mut bits: u16 = 16;
    let mut data: Option<(usize, usize)> = None;
    while offset <= bytes.len() && bytes.len() - offset >= 8
        invariant_except_break
            scan(b, 12, scan_start()) == scan(b, offset as int, WavScan {
                format,
                channels,
                sample_rate,
                bits,
                data: match data {
                    Some((s, e)) => Some((s as int, e as int)),
                    None => None,
                },
            }),
        invariant
            b == bytes@,
            12 <= offset,
            match data {
                Some((s, e)) => s <= e <= bytes@.len(),
                None => true,
            },
        ensures
            scan(b, 12, scan_start()) == (WavScan {
                format,
                channels,
                sample_rate,
                bits,
                data: match data {
                    Some((s, e)) => Some((s as int, e as int)),
                    None => None,
                },
            }),
        decreases bytes.len() - offset,
    {
        let is_data = tag_at(bytes, offset, [0x64, 0x61, 0x74, 0x61]);
        let is_fmt = tag_at(bytes, offset, [0x66, 0x6d, 0x74, 0x20]);
        assert([0x64u8, 0x61u8, 0x74u8, 0x61u8]@ =~= tag_data());
        assert([0x66u8, 0x6du8, 0x74u8, 0x20u8]@ =~= tag_fmt());
        let size = read32(bytes, offset + 4) as usize;
        let o = offset + 8;
        if size > bytes.len() - o {
            if is_data {
                data = Some((o, bytes.len()));
            }
            break;
        }
        if is_fmt {
            if size >= 16 {
                format = read16(bytes, o);
                channels = read16(bytes, o + 2);
                sample_rate = read32(bytes, o + 4);
                bits = read16(bytes, o + 14);
            }
        } else if is_data {
            data = Some((o, o + size));
        }
        let o2 = o + size;
        offset = if size % 2 != 0 && o2 < bytes.len() {
            o2 + 1
        } else {
            o2
        };
    }
    if format != 1 {
        let mut m = String::new();
        push_str(&mut m, "WAV audio format ");
        push_decimal(&mut m, format as u64);
        return Err(MediaError::UnsupportedFormat(m));
    }
    let (start, end) = match data {
        Some(d) => d,
        None => return Err(MediaError::InvalidWavHeader),
    };
    let ch: usize = if channels == 0 {
        1
    } else {
        channels as usize
    };
    let ghost d = b.subrange(start as int, end as int);
    if bits == 16 {
        let n = (end - start) / 2;
        let mut samples: Vec<i16> = Vec::new();
        let mut i: usize = 0;
        while i < n
            invariant
                b == bytes@,
                start <= end <= bytes@.len(),
                d == b.subrange(start as int, end as int),
                n == d.len() / 2,
                i <= n,
                samples@ == pcm16(d).take(i as int),
            decreases n - i,
        {
            let lo = bytes[start + 2 * i];
            let hi = bytes[start + 2 * i + 1];
            let u: u32 = lo as u32 + 256 * (hi as u32);
            let s: i16 = if u >= 32768 {
                (u as i32 - 65536) as i16
            } else {
                u as i16
            };
            samples.push(s);
            assert(d[2 * i as int] == lo && d[2 * i + 1] == hi);
            i = i + 1;
            assert(samples@ =~= pcm16(d).take(i as int));
        }
        assert(pcm16(d).take(n as int) =~= pcm16(d));
        Ok(PcmAudio { channels: ch, sample_rate, bits_per_sample: 16, samples })
    } else if bits == 8 {
        let mut samples: Vec<i16> = Vec::new();
        let mut i: usize = start;
        while i < end
            invariant
                b == bytes@,
                start <= i <= end <= bytes@.len(),
                d == b.subrange(start as int, end as int),
                samples@ == pcm8(d).take(i - start),
            decreases end - i,
        {
            samples.push(bytes[i] as i16 - 128);
            i = i + 1;
            assert(samples@ =~= pcm8(d).take(i - start));
        }
        assert(pcm8(d).take(end - start) =~= pcm8(d));
        Ok(PcmAudio { channels: ch, sample_rate, bits_per_sample: 8, samples })
    } else {
        let mut m = String::new();
        push_decimal(&mut m, bits as u64);
        push_str(&mut m, " bits per sample");
        Err(MediaError::UnsupportedFormat(m))
    }
}

/// Little-endian bytes of a 16-bit value.
pub open spec fn le16_bytes(v: nat) -> Seq<u8> {
    seq![(v % 256) as u8, ((v / 256) % 256) as u8]
}

/// Little-endian bytes of a 32-bit value.
pub open spec fn le32_bytes(v: nat) -> Seq<u8> {
    le16_bytes(v % 65536) + le16_bytes(v / 65536)
}

/// The bytes of 16-bit samples, each little-endian.
pub open spec fn sample_bytes(s: Seq<i16>) -> Seq<u8>
    decreases s.len(),
{
    if s.len() == 0 {
        Seq::empty()
    } else {
        sample_bytes(s.drop_last()) + le16_bytes((if s.last() < 0 {
            s.last() + 65536
        } else {
            s.last() as int
        }) as nat)
    }
}

/// The RIFF chunk head: `RIFF`, the size of what follows, `WAVE`.
pub open spec fn riff_part(data_len: nat) -> Seq<u8> {
    tag_riff() + le32_bytes(36 + data_len) + tag_wave()
}

/// The `fmt ` chunk of 16-bit PCM: format 1, channels, rate, byte rate, block alignment, 16 bits.
pub open spec fn fmt_part(nc: nat, sample_rate: nat) -> Seq<u8> {
    tag_fmt() + le32_bytes(16) + le16_bytes(1) + le16_bytes(nc) + le32_bytes(sample_rate) + le32_bytes(
        sample_rate * (nc * 2),
    ) + le16_bytes(nc * 2) + le16_bytes(16)
}

/// The head of the `data` chunk.
pub open spec fn data_part(data_len: nat) -> Seq<u8> {
    tag_data() + le32_bytes(data_len)
}

/// The 44-byte header of a 16-bit PCM WAV file followed by the samples.
pub open spec fn encode_spec(channels: usize, sample_rate: u32, s: Seq<i16>) -> Seq<u8> {
    let nc = (if channels == 0 {
        1
    } else {
        channels
    }) as nat;
    riff_part(s.len() * 2) + fmt_part(nc, sample_rate as nat) + data_part(s.len() * 2) + sample_bytes(s)
}

fn push16(out: &mut Vec<u8>, v: u16)
    ensures
        final(out)@ == old(out)@ + le16_bytes(v as nat),
{
    out.push((v % 256) as u8);
    out.push((v / 256) as u8);
    assert(final(out)@ =~= old(out)@ + le16_bytes(v as nat));
}

fn push32(out: &mut Vec<u8>, v: u32)
    ensures
        final(out)@ == old(out)@ + le32_bytes(v as nat),
{
    push16(out, (v % 65536) as u16);
    push16(out, (v / 65536) as u16);
    assert(final(out)@ =~= old(out)@ + le32_bytes(v as nat));
}

fn push_tag(out: &mut Vec<u8>, t: [u8; 4])
    ensures
        final(out)@ == old(out)@ + t@,
{
    out.push(t[0]);
    out.push(t[1]);
    out.push(t[2]);
    out.push(t[3]);
    assert(final(out)@ =~= old(out)@ + t@);
}

/// Encodes 16-bit samples as a PCM RIFF/WAVE byte stream.
pub fn encode_wav(channels: usize, sample_rate: u32, samples: &Vec<i16>) -> (out: Vec<u8>)
    requires
        channels <= 32767,
        sample_rate as nat * (if channels == 0 { 2 } else { channels * 2 }) <= u32::MAX,
        36 + samples@.len() * 2 <= u32::MAX,
    ensures
        out@ == encode_spec(channels, sample_rate, samples@),
{
    let nc: u16 = if channels == 0 {
        1
    } else {
        channels as u16
    };
    let block_align: u16 = nc * 2;
    let byte_rate: u32 = sample_rate * block_align as u32;
    let data_len: u32 = (samples.len() * 2) as u32;
    let mut out: Vec<u8> = Vec::new();
    push_tag(&mut out, [0x52, 0x49, 0x46, 0x46]);
    push32(&mut out, 36 + data_len);
    push_tag(&mut out, [0x57, 0x41, 0x56, 0x45]);
    push_tag(&mut out, [0x66, 0x6d, 0x74, 0x20]);
    push32(&mut out, 16);
    push16(&mut out, 1);
    push16(&mut out, nc);
    push32(&mut out, sample_rate);
    push32(&mut out, byte_rate);
    push16(&mut out, block_align);
    push16(&mut out, 16);
    push_tag(&mut out, [0x64, 0x61, 0x74, 0x61]);
    push32(&mut out, data_len);
    let ghost head = out@;
    assert([0x52u8, 0x49u8, 0x46u8, 0x46u8]@ =~= tag_riff());
    assert([0x57u8, 0x41u8, 0x56u8, 0x45u8]@ =~= tag_wave());
    assert([0x64u8, 0x61u8, 0x74u8, 0x61u8]@ =~= tag_data());
    assert([0x66u8, 0x6du8, 0x74u8, 0x20u8]@ =~= tag_fmt());
    assert(head =~= riff_part(samples@.len() * 2) + fmt_part(nc as nat, sample_rate as nat) + data_part(samples@.len() * 2));
    let mut i: usize = 0;
    while i < samples.len()
        invariant
            i <= samples@.len(),
            out@ == head + sample_bytes(samples@.take(i as int)),
        decreases samples@.len() - i,
    {
        let s = samples[i];
        let u: u16 = if s < 0 {
            (s as i32 + 65536) as u16
        } else {
            s as u16
        };
        push16(&mut out, u);
        assert(samples@.take(i + 1).drop_last() =~= samples@.take(i as int));
        i = i + 1;
        assert(out@ =~= head + sample_bytes(samples@.take(i as int)));
    }
    assert(samples@.take(samples@.len() as int) == samples@);
    assert(out@ =~= encode_spec(channels, sample_rate, samples@));
    out
}

/// The test pattern of a video frame shifted by `shift`: red follows the
/// column, green the row, blue their sum, each modulo 256, fully opaque.
pub open spec fn pattern_pixel(x: nat, y: nat, shift: nat) -> u32 {
    (0xFF00_0000nat + ((x + shift) % 256) * 65536 + ((y + shift) % 256) * 256 + (x + y) % 256) as u32
}

pub open spec fn pattern(width: nat, height: nat, shift: nat) -> Seq<u32> {
    Seq::new(width * height, |i: int| pattern_pixel((i % width as int) as nat, (i / width as int) as nat, shift))
}

/// The pixels (`0xAARRGGBB`, row by row) of the test pattern.
pub fn test_pattern_pixels(width: u32, height: u32, shift: u32) -> (px: Vec<u32>)
    requires
        width as nat + shift as nat <= u32::MAX,
        height as nat + shift as nat <= u32::MAX,
        width as nat + height as nat <= u32::MAX,
        width as nat * height as nat <= usize::MAX,
    ensures
        px@ == pattern(width as nat, height as nat, shift as nat),
{
    let mut px: Vec<u32> = Vec::new();
    let mut y: u32 = 0;
    while y < height
        invariant
            y <= height,
            width as nat + shift as nat <= u32::MAX,
            height as nat + shift as nat <= u32::MAX,
            width as nat + height as nat <= u32::MAX,
            px@.len() == y as nat * width as nat,
            forall|i: int| 0 <= i < px@.len() ==> px@[i] == pattern_pixel((i % width as int) as nat, (i / width as int) as nat, shift as nat),
        decreases height - y,
    {
        let mut x: u32 = 0;
        while x < width
            invariant
                x <= width,
                y < height,
                width as nat + shift as nat <= u32::MAX,
                height as nat + shift as nat <= u32::MAX,
                width as nat + height as nat <= u32::MAX,
                px@.len() == y as nat * width as nat + x,
                forall|i: int| 0 <= i < px@.len() ==> px@[i] == pattern_pixel((i % width as int) as nat, (i / width as int) as nat, shift as nat),
            decreases width - x,
        {
            let r = (x + shift) % 256;
            let g = (y + shift) % 256;
            let b = (x + y) % 256;
            let color: u32 = 0xFF00_0000 | (r << 16) | (g << 8) | b;
            assert(0xFF00_0000u32 | (r << 16) | (g << 8) | b == 0xFF00_0000u32 + r * 65536 + g * 256 + b) by (bit_vector)
                requires
                    r < 256,
                    g < 256,
                    b < 256,
            ;
            let ghost k = px@.len() as int;
            proof {
                assert(k == y * width + x);
                assert(k % width as int == x as int && k / width as int == y as int) by (nonlinear_arith)
                    requires
                        k == y * width + x,
                        x < width,
                ;
            }
            px.push(color);
            x = x + 1;
        }
        proof {
            assert(px@.len() == (y + 1) as nat * width as nat) by (nonlinear_arith)
                requires
                    px@.len() == y as nat * width as nat + width as nat,
            ;
        }
        y = y + 1;
    }
    assert(px@ =~= pattern(width as nat, height as nat, shift as nat)) by {
        assert(px@.len() == width as nat * height as nat) by (nonlinear_arith)
            requires
                px@.len() == height as nat * width as nat,
        ;
    }
    px
}

} // verus!

verus! {

proof fn lemma_le16_roundtrip(v: nat)
    requires
        v < 65536,
    ensures
        le16(le16_bytes(v), 0) == v,
        le16_bytes(v).len() == 2,
{
    let b = le16_bytes(v);
    assert(b[0] as nat == v % 256);
    assert(b[1] as nat == (v / 256) % 256);
    assert((v % 256) + 256 * ((v / 256) % 256) == v) by (nonlinear_arith)
        requires
            v < 65536,
    ;
}

proof fn lemma_le32_roundtrip(v: nat)
    requires
        v < 0x1_0000_0000,
    ensures
        le32(le32_bytes(v), 0) == v,
        le32_bytes(v).len() == 4,
{
    let b = le32_bytes(v);
    assert(v / 65536 < 65536) by (nonlinear_arith)
        requires
            v < 0x1_0000_0000,
    ;
    lemma_le16_roundtrip(v % 65536);
    lemma_le16_roundtrip(v / 65536);
    assert(b.subrange(0, 2) =~= le16_bytes(v % 65536));
    assert(b.subrange(2, 4) =~= le16_bytes(v / 65536));
    assert(b[0] == le16_bytes(v % 65536)[0]);
    assert(b[1] == le16_bytes(v % 65536)[1]);
    assert(b[2] == le16_bytes(v / 65536)[0]);
    assert(b[3] == le16_bytes(v / 65536)[1]);
    assert(le16(b, 0) == v % 65536);
    assert(le16(b, 2) == v / 65536);
    assert(v % 65536 + 65536 * (v / 65536) == v) by (nonlinear_arith);
}

/// The unsigned 16-bit pattern of a sample.
pub open spec fn sample_bits(x: i16) -> nat {
    (if x < 0 {
        x + 65536
    } else {
        x as int
    }) as nat
}

proof fn lemma_sample_bytes(s: Seq<i16>, i: int)
    requires
        0 <= i < s.len(),
    ensures
        sample_bytes(s).len() == 2 * s.len(),
        sample_bytes(s)[2 * i] == le16_bytes(sample_bits(s[i]))[0],
        sample_bytes(s)[2 * i + 1] == le16_bytes(sample_bits(s[i]))[1],
    decreases s.len(),
{
    lemma_sample_bytes_len(s);
    let p = s.drop_last();
    lemma_sample_bytes_len(p);
    if i < s.len() - 1 {
        lemma_sample_bytes(p, i);
        assert(p[i] == s[i]);
    }
}

proof fn lemma_sample_bytes_len(s: Seq<i16>)
    ensures
        sample_bytes(s).len() == 2 * s.len(),
    decreases s.len(),
{
    if s.len() > 0 {
        lemma_sample_bytes_len(s.drop_last());
    }
}

proof fn lemma_sample16_roundtrip(x: i16)
    ensures
        sample16(le16_bytes(sample_bits(x))[0], le16_bytes(sample_bits(x))[1]) == x,
{
    let u = sample_bits(x);
    assert(u < 65536);
    lemma_le16_roundtrip(u);
    assert(le16(le16_bytes(u), 0) == u);
}

proof fn lemma_riff_part(dl: nat)
    requires
        36 + dl < 0x1_0000_0000,
    ensures
        riff_part(dl).len() == 12,
        riff_part(dl).subrange(0, 4) == tag_riff(),
        riff_part(dl).subrange(8, 12) == tag_wave(),
{
    lemma_le32_roundtrip(36 + dl);
    assert(riff_part(dl).subrange(0, 4) =~= tag_riff());
    assert(riff_part(dl).subrange(8, 12) =~= tag_wave());
}

proof fn lemma_fmt_part(nc: nat, rate: nat)
    requires
        nc < 32768,
        rate < 0x1_0000_0000,
        rate * (nc * 2) < 0x1_0000_0000,
    ensures
        fmt_part(nc, rate).len() == 24,
        fmt_part(nc, rate).subrange(0, 4) == tag_fmt(),
        le32(fmt_part(nc, rate), 4) == 16,
        le16(fmt_part(nc, rate), 8) == 1,
        le16(fmt_part(nc, rate), 10) == nc,
        le32(fmt_part(nc, rate), 12) == rate,
        le16(fmt_part(nc, rate), 22) == 16,
{
    let f = fmt_part(nc, rate);
    lemma_le32_roundtrip(16);
    lemma_le16_roundtrip(1);
    lemma_le16_roundtrip(nc);
    lemma_le32_roundtrip(rate);
    lemma_le32_roundtrip(rate * (nc * 2));
    lemma_le16_roundtrip(nc * 2);
    lemma_le16_roundtrip(16);
    assert(f.subrange(0, 4) =~= tag_fmt());
    let a = le32_bytes(16);
    assert(f[4] == a[0] && f[5] == a[1] && f[6] == a[2] && f[7] == a[3]);
    let b1 = le16_bytes(1);
    assert(f[8] == b1[0] && f[9] == b1[1]);
    let c = le16_bytes(nc);
    assert(f[10] == c[0] && f[11] == c[1]);
    let r = le32_bytes(rate);
    assert(f[12] == r[0] && f[13] == r[1] && f[14] == r[2] && f[15] == r[3]);
    let e = le16_bytes(16);
    assert(f[22] == e[0] && f[23] == e[1]);
}

proof fn lemma_data_part(dl: nat)
    requires
        dl < 0x1_0000_0000,
    ensures
        data_part(dl).len() == 8,
        data_part(dl).subrange(0, 4) == tag_data(),
        le32(data_part(dl), 4) == dl,
{
    let d = data_part(dl);
    lemma_le32_roundtrip(dl);
    assert(d.subrange(0, 4) =~= tag_data());
    let a = le32_bytes(dl);
    assert(d[4] == a[0] && d[5] == a[1] && d[6] == a[2] && d[7] == a[3]);
}

#[verifier::rlimit(40)]
proof fn lemma_scan_written(b: Seq<u8>, nc: u16, rate: u32, dl: nat)
    requires
        b.len() == 44 + dl,
        dl % 2 == 0,
        is_tag(b, 12, tag_fmt()),
        is_tag(b, 36, tag_data()),
        !is_tag(b, 36, tag_fmt()),
        le32(b, 16) == 16,
        le16(b, 20) == 1,
        le16(b, 22) == nc,
        le32(b, 24) == rate,
        le16(b, 34) == 16,
        le32(b, 40) == dl,
    ensures
        scan(b, 12, scan_start()) == (WavScan {
            format: 1,
            channels: nc,
            sample_rate: rate,
            bits: 16,
            data: Some((44, (44 + dl) as int)),
        }),
{
    let st1 = WavScan { format: 1, channels: nc, sample_rate: rate, bits: 16, data: None };
    let end: int = (44 + dl) as int;
    let st2 = WavScan { data: Some((44, end)), ..st1 };
    assert(scan(b, end, st2) == st2);
    assert(scan(b, 36, st1) == scan(b, end, st2));
    assert(scan(b, 12, scan_start()) == scan(b, 36, st1));
}

proof fn lemma_written_layout(channels: usize, sample_rate: u32, s: Seq<i16>)
    requires
        channels <= 32767,
        sample_rate as nat * (if channels == 0 { 2 } else { channels * 2 }) <= u32::MAX,
        36 + s.len() * 2 <= u32::MAX,
    ensures
        ({
            let b = encode_spec(channels, sample_rate, s);
            let nc = (if channels == 0 { 1 } else { channels }) as nat;
            let dl = s.len() * 2;
            &&& b.len() == 44 + dl
            &&& is_tag(b, 0, tag_riff())
            &&& is_tag(b, 8, tag_wave())
            &&& is_tag(b, 12, tag_fmt())
            &&& is_tag(b, 36, tag_data())
            &&& !is_tag(b, 36, tag_fmt())
            &&& le32(b, 16) == 16
            &&& le16(b, 20) == 1
            &&& le16(b, 22) == nc
            &&& le32(b, 24) == sample_rate
            &&& le16(b, 34) == 16
            &&& le32(b, 40) == dl
            &&& b.subrange(44, 44 + dl as int) == sample_bytes(s)
        }),
{
    let nc = (if channels == 0 { 1 } else { channels }) as nat;
    let dl = s.len() * 2;
    let rp = riff_part(dl);
    let fp = fmt_part(nc, sample_rate as nat);
    let dp = data_part(dl);
    let sb = sample_bytes(s);
    let b = encode_spec(channels, sample_rate, s);
    lemma_sample_bytes_len(s);
    lemma_riff_part(dl);
    lemma_fmt_part(nc, sample_rate as nat);
    lemma_data_part(dl);
    assert(b == rp + fp + dp + sb);
    assert(b.len() == 44 + dl);
    assert forall|i: int| 0 <= i < 12 implies b[i] == rp[i] by {}
    assert forall|i: int| 0 <= i < 24 implies b[12 + i] == fp[i] by {}
    assert forall|i: int| 0 <= i < 8 implies b[36 + i] == dp[i] by {}
    assert forall|i: int| 0 <= i < dl implies b[44 + i] == sb[i] by {}
    assert(b.subrange(0, 4) =~= rp.subrange(0, 4));
    assert(b.subrange(8, 12) =~= rp.subrange(8, 12));
    assert(b.subrange(12, 16) =~= fp.subrange(0, 4));
    assert(b.subrange(36, 40) =~= dp.subrange(0, 4));
    assert(le32(b, 16) == le32(fp, 4));
    assert(le16(b, 20) == le16(fp, 8));
    assert(le16(b, 22) == le16(fp, 10));
    assert(le32(b, 24) == le32(fp, 12));
    assert(le16(b, 34) == le16(fp, 22));
    assert(le32(b, 40) == le32(dp, 4));
    assert(tag_data() != tag_fmt()) by {
        assert(tag_data()[0] != tag_fmt()[0]);
    }
    assert(b.subrange(44, 44 + dl as int) =~= sb);
}

/// Decoding what `encode_wav` wrote gives back the samples, the sample rate and
/// the channel count (at least one), as 16-bit audio.
pub proof fn law_wav_roundtrip(channels: usize, sample_rate: u32, s: Seq<i16>)
    requires
        channels <= 32767,
        sample_rate as nat * (if channels == 0 { 2 } else { channels * 2 }) <= u32::MAX,
        36 + s.len() * 2 <= u32::MAX,
    ensures
        decode_spec(encode_spec(channels, sample_rate, s)) == Ok::<PcmView, WavFault>(PcmView {
            channels: if channels == 0 { 1 } else { channels },
            sample_rate,
            bits_per_sample: 16,
            samples: s,
        }),
{
    let nc = (if channels == 0 { 1 } else { channels }) as nat;
    let n = s.len();
    let dl = n * 2;
    let b = encode_spec(channels, sample_rate, s);
    lemma_written_layout(channels, sample_rate, s);
    lemma_scan_written(b, nc as u16, sample_rate, dl);
    let end: int = (44 + dl) as int;
    let d = b.subrange(44, end);
    assert forall|i: int| 0 <= i < n implies #[trigger] pcm16(d)[i] == s[i] by {
        lemma_sample_bytes(s, i);
        lemma_sample16_roundtrip(s[i]);
    }
    assert(pcm16(d) =~= s);
}


impl PcmAudio {
    /// The number of whole frames: samples divided by the channel count (at least one).
    pub fn frame_count(&self) -> (n: usize)
        ensures
            n as int == self.samples@.len() as int / (if self.channels == 0 { 1int } else { self.channels as int }),
    {
        let ch: usize = if self.channels == 0 { 1 } else { self.channels };
        self.samples.len() / ch
    }
}

/// The discrete part of a media element's playback: what `play`, `pause`,
/// loading and reaching the end decide. The clock itself is kept by the caller.
#[derive(Debug, Clone, PartialEq)]
pub struct PlaybackState {
    pub media_type: MediaType,
    pub paused: bool,
    pub ended: bool,
    pub looping: bool,
    pub ready_state: ReadyState,
    pub network_state: NetworkState,
}

/// What happens to the clock when the playhead reaches the end.
#[derive(Debug, Clone, Copy, PartialEq, Eq, Structural)]
pub enum EndAction {
    /// Start again from zero (looping).
    Rewind,
    /// Stay at the end: the element is now ended and paused.
    Stop,
}

impl PlaybackState {
    /// A fresh element: paused, not ended, not looping, with nothing loaded and an idle network.
    pub fn new(media_type: MediaType) -> (s: PlaybackState)
        ensures
            s.media_type == media_type,
            s.paused,
            !s.ended,
            !s.looping,
            s.ready_state == ReadyState::HaveNothing,
            s.network_state == NetworkState::Idle,
    {
        PlaybackState {
            media_type,
            paused: true,
            ended: false,
            looping: false,
            ready_state: ReadyState::HaveNothing,
            network_state: NetworkState::Idle,
        }
    }

    /// Starts playback. Returns whether the clock has to go back to zero,
    /// which is so exactly when the element had ended.
    pub fn play(&mut self) -> (restart: bool)
        ensures
            restart == old(self).ended,
            !final(self).paused,
            !final(self).ended,
            final(self).ready_state == (if old(self).ready_state == ReadyState::HaveNothing {
                ReadyState::HaveEnoughData
            } else {
                old(self).ready_state
            }),
            final(self).media_type == old(self).media_type,
            final(self).looping == old(self).looping,
            final(self).network_state == old(self).network_state,
    {
        let restart = self.ended;
        self.ended = false;
        self.paused = false;
        if self.ready_state == ReadyState::HaveNothing {
            self.ready_state = ReadyState::HaveEnoughData;
        }
        restart
    }

    /// Pauses playback; nothing else changes.
    pub fn pause(&mut self)
        ensures
            *final(self) == (PlaybackState { paused: true, ..*old(self) }),
    {
        self.paused = true;
    }

    /// Whether a step of the clock moves the playhead: playing and not ended.
    pub fn is_advancing(&self) -> (b: bool)
        ensures
            b == (!self.paused && !self.ended),
    {
        !self.paused && !self.ended
    }

    /// The playhead has reached the end: a looping element rewinds and keeps
    /// its state, any other one ends and pauses.
    pub fn reach_end(&mut self) -> (a: EndAction)
        ensures
            old(self).looping ==> a == EndAction::Rewind && *final(self) == *old(self),
            !old(self).looping ==> a == EndAction::Stop && *final(self) == (PlaybackState {
                ended: true,
                paused: true,
                ..*old(self)
            }),
    {
        if self.looping {
            EndAction::Rewind
        } else {
            self.ended = true;
            self.paused = true;
            EndAction::Stop
        }
    }

    /// Loads a WAV byte stream into an audio element. A video element refuses
    /// it and keeps its state. Otherwise the stream is decoded: on success the
    /// element is no longer ended, has enough data and an idle network; on
    /// failure it has nothing and no source, and the decoding error is returned.
    pub fn load_wav(&mut self, bytes: &[u8]) -> (r: Result<PcmAudio, MediaError>)
        ensures
            old(self).media_type != MediaType::Audio ==> *final(self) == *old(self) && (r matches Err(
                MediaError::UnsupportedFormat(m),
            ) && m@ == "WAV audio cannot be loaded into a video element"@),
            old(self).media_type == MediaType::Audio ==> match (r, decode_spec(bytes@)) {
                (Ok(a), Ok(v)) => a@ == v && *final(self) == (PlaybackState {
                    ended: false,
                    ready_state: ReadyState::HaveEnoughData,
                    network_state: NetworkState::Idle,
                    ..*old(self)
                }),
                (Err(e), Err(f)) => fault_matches(e, f) && *final(self) == (PlaybackState {
                    ready_state: ReadyState::HaveNothing,
                    network_state: NetworkState::NoSource,
                    ..*old(self)
                }),
                _ => false,
            },
    {
        if self.media_type != MediaType::Audio {
            return Err(MediaError::UnsupportedFormat("WAV audio cannot be loaded into a video element".to_owned()));
        }
        self.network_state = NetworkState::Loading;
        match decode_wav(bytes) {
            Ok(audio) => {
                self.ended = false;
                self.ready_state = ReadyState::HaveEnoughData;
                self.network_state = NetworkState::Idle;
                Ok(audio)
            },
            Err(e) => {
                self.ready_state = ReadyState::HaveNothing;
                self.network_state = NetworkState::NoSource;
                Err(e)
            },
        }
    }
}

} // verus!
