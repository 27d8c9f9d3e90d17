//! MSPM0 ROM UART bootloader (BSL) host side: packet framing, checksums and
//! firmware image parsing.
//!
//! Host packet: `[0x80][len_le16][cmd][payload…][crc32_le]` where
//! `len = 1 + payload.len` and the CRC covers `cmd + payload`.
//! CRC-32 uses the reflected polynomial 0xEDB88320, initial value
//! 0xFFFFFFFF and no final complement.

use vstd::prelude::*;
use crate::text::{
    all_ascii, chars_of, hex_digit, hex_val, is_hex_digit, lemma_ascii_utf8_len, lemma_find_char, line_at,
    next_line, string_from, trim, trim_bounds, utf8_len, utf8_shape, ws_prefix, word_len,
    lemma_ws_prefix_bound, lemma_word_len, skip_ws, skip_word, parse_hex_u32, hex_u32, trim_start,
    skip_ws as skip_ws_at, ascii_lower, to_ascii_lowercase,
};
use vstd::utf8::{valid_utf8, decode_utf8};

verus! {

/// Host → device packet header.
pub const HDR_HOST: u8 = 0x80;
/// Device → host packet header.
pub const HDR_DEVICE: u8 = 0x08;
/// Acknowledge byte.
pub const ACK: u8 = 0x00;
/// BSL command codes.
pub const CMD_CONNECTION: u8 = 0x12;
pub const CMD_GET_ID: u8 = 0x19;
pub const CMD_RX_PASSWORD: u8 = 0x21;
pub const CMD_MASS_ERASE: u8 = 0x15;
pub const CMD_PROGRAM_DATA: u8 = 0x20;
pub const CMD_START_APP: u8 = 0x40;
/// Maximum number of data bytes per ProgramData command.
pub const MAX_DATA_CHUNK: usize = 128;
/// Baud rate of the ROM bootloader when none is chosen.
pub const DEFAULT_BSL_BAUD: u32 = 9_600;
/// Baud rate of the running application.
pub const APP_BAUD: u32 = 115_200;
/// Largest image the flasher accepts.
pub const MAX_IMAGE_BYTES: usize = 524_288;

/// One shift step of the reflected CRC-32 register.
pub open spec fn crc_shift(c: u32) -> u32 {
    if c & 1 != 0 {
        (c >> 1) ^ 0xEDB8_8320u32
    } else {
        c >> 1
    }
}

/// `n` shift steps of the CRC register.
pub open spec fn crc_shifts(c: u32, n: nat) -> u32
    decreases n,
{
    if n == 0 {
        c
    } else {
        crc_shifts(crc_shift(c), (n - 1) as nat)
    }
}

/// The register after absorbing one byte.
pub open spec fn crc_byte(c: u32, b: u8) -> u32 {
    crc_shifts(c ^ (b as u32), 8)
}

/// The register after absorbing all of `s`, starting from `init`.
pub open spec fn crc_fold(init: u32, s: Seq<u8>) -> u32
    decreases s.len(),
{
    if s.len() == 0 {
        init
    } else {
        crc_byte(crc_fold(init, s.drop_last()), s.last())
    }
}

/// CRC-32 as the bootloader computes it (no final complement).
pub open spec fn spec_crc32(s: Seq<u8>) -> u32 {
    crc_fold(0xFFFF_FFFFu32, s)
}

/// CRC-32 with polynomial 0xEDB88320, init 0xFFFFFFFF and no final complement.
pub fn crc32(data: &[u8]) -> (crc: u32)
    ensures
        crc == spec_crc32(data@),
{
    let mut crc: u32 = 0xFFFF_FFFF;
    let mut i: usize = 0;
    while i < data.len()
        invariant
            i <= data.len(),
            crc == crc_fold(0xFFFF_FFFFu32, data@.subrange(0, i as int)),
        decreases data.len() - i,
    {
        let ghost start = crc ^ (data@[i as int] as u32);
        crc = crc ^ (data[i] as u32);
        let mut k: u32 = 0;
        while k < 8
            invariant
                k <= 8,
                crc_shifts(start, 8) == crc_shifts(crc, (8 - k) as nat),
            decreases 8 - k,
        {
            if crc & 1 != 0 {
                crc = (crc >> 1) ^ 0xEDB8_8320;
            } else {
                crc = crc >> 1;
            }
            k = k + 1;
        }
        proof {
            assert(data@.subrange(0, i + 1).drop_last() =~= data@.subrange(0, i as int));
        }
        i = i + 1;
    }
    proof {
        assert(data@.subrange(0, data.len() as int) =~= data@);
    }
    crc
}

/// Little-endian bytes of a 16-bit value.
pub open spec fn le16(v: u16) -> Seq<u8> {
    seq![(v % 256) as u8, (v / 256) as u8]
}

/// Little-endian bytes of a 32-bit value.
pub open spec fn le32(v: u32) -> Seq<u8> {
    seq![
        (v % 0x100) as u8,
        ((v / 0x100) % 0x100) as u8,
        ((v / 0x1_0000) % 0x100) as u8,
        (v / 0x100_0000) as u8,
    ]
}

/// The host packet for `cmd` with `payload`: header, 16-bit length of
/// `cmd + payload` (truncated to 16 bits), command, payload and the CRC of
/// `cmd + payload`.
pub open spec fn spec_packet(cmd: u8, payload: Seq<u8>) -> Seq<u8> {
    let core = seq![cmd] + payload;
    seq![HDR_HOST] + le16(((1 + payload.len()) % 0x1_0000) as u16) + core + le32(spec_crc32(core))
}

fn push_le32(out: &mut Vec<u8>, v: u32)
    ensures
        final(out)@ == old(out)@ + le32(v),
{
    out.push((v % 0x100) as u8);
    out.push(((v / 0x100) % 0x100) as u8);
    out.push(((v / 0x1_0000) % 0x100) as u8);
    out.push((v / 0x100_0000) as u8);
    proof {
        assert(final(out)@ =~= old(out)@ + le32(v));
    }
}

/// Frames a host command packet.
pub fn build_packet(cmd: u8, payload: &[u8]) -> (packet: Vec<u8>)
    requires
        payload@.len() + 8 <= usize::MAX,
    ensures
        packet@ == spec_packet(cmd, payload@),
{
    let payload_size: usize = 1 + payload.len();
    let size16: u16 = (payload_size % 0x1_0000) as u16;
    let mut core: Vec<u8> = Vec::new();
    core.push(cmd);
    let mut i: usize = 0;
    while i < payload.len()
        invariant
            i <= payload.len(),
            core@ == seq![cmd] + payload@.subrange(0, i as int),
        decreases payload.len() - i,
    {
        core.push(payload[i]);
        proof {
            assert(core@ =~= seq![cmd] + payload@.subrange(0, i + 1));
        }
        i = i + 1;
    }
    proof {
        assert(payload@.subrange(0, payload.len() as int) =~= payload@);
    }
    let crc = crc32(core.as_slice());
    let mut packet: Vec<u8> = Vec::new();
    packet.push(HDR_HOST);
    packet.push((size16 % 256) as u8);
    packet.push((size16 / 256) as u8);
    let mut j: usize = 0;
    while j < core.len()
        invariant
            j <= core.len(),
            packet@ == seq![HDR_HOST] + le16(size16) + core@.subrange(0, j as int),
        decreases core.len() - j,
    {
        packet.push(core[j]);
        proof {
            assert(packet@ =~= seq![HDR_HOST] + le16(size16) + core@.subrange(0, j + 1));
        }
        j = j + 1;
    }
    proof {
        assert(core@.subrange(0, core.len() as int) =~= core@);
    }
    push_le32(&mut packet, crc);
    proof {
        assert(packet@ =~= spec_packet(cmd, payload@));
    }
    packet
}

/// Status byte of a device response (`[0x08][len][type][status][crc…]`):
/// the byte at index 4, or 0xFF when the response is shorter than that.
pub fn response_status(resp: &[u8]) -> (status: u8)
    ensures
        status == (if resp@.len() > 4 { resp@[4] } else { 0xFFu8 }),
{
    if resp.len() > 4 {
        resp[4]
    } else {
        0xFF
    }
}

/// Flash image segment (absolute address + bytes).
#[derive(Clone, Debug)]
pub struct Segment {
    pub address: u32,
    pub data: Vec<u8>,
}

/// A segment as a pair of address and bytes.
pub open spec fn seg_view(s: Segment) -> (u32, Seq<u8>) {
    (s.address, s.data@)
}

/// The segments of a list, as pairs.
pub open spec fn segs_view(v: Seq<Segment>) -> Seq<(u32, Seq<u8>)> {
    v.map_values(|s: Segment| seg_view(s))
}

/// What went wrong while reading a firmware image.
#[derive(Clone, Copy, Debug, PartialEq, Eq, Structural)]
pub enum FirmwareFault {
    /// An Intel HEX record with fewer than 10 or an odd number of hex bytes.
    HexLineTooShort,
    /// An Intel HEX record with a character that is not a hex digit pair.
    HexBadDigit,
    /// An Intel HEX record whose bytes do not sum to 0 modulo 256.
    HexChecksum,
    /// An Intel HEX record whose length field exceeds its data.
    HexTruncated,
    /// An Intel HEX file without data.
    HexNoData,
    /// A TI-TXT `@address` line that is not a hexadecimal `u32`.
    TiBadAddress,
    /// A two-byte TI-TXT token that is not a hexadecimal byte.
    TiBadByte,
    /// A TI-TXT file without data.
    TiNoData,
    /// A raw binary image without bytes.
    EmptyImage,
    /// A `.hex` / `.txt` file that is not UTF-8.
    NotUtf8,
}

/// A firmware read error: its kind and the offending line or token.
#[derive(Clone, Debug)]
pub struct FirmwareError {
    pub kind: FirmwareFault,
    pub detail: String,
}

/// A spec-level firmware result: segments, or the fault and its detail.
pub type SpecFirmware = Result<Seq<(u32, Seq<u8>)>, (FirmwareFault, Seq<char>)>;

/// The view of an executable firmware result.
pub open spec fn firmware_view(r: Result<Vec<Segment>, FirmwareError>) -> SpecFirmware {
    match r {
        Ok(v) => Ok(segs_view(v@)),
        Err(e) => Err((e.kind, e.detail@)),
    }
}

/// A byte written as two characters, as `u8::from_str_radix(.., 16)` reads
/// it: two hex digits, or `'+'` and one hex digit.
pub open spec fn pair_byte(c1: char, c2: char) -> Option<u8> {
    if c1 == '+' && is_hex_digit(c2) {
        Some(hex_val(c2) as u8)
    } else if is_hex_digit(c1) && is_hex_digit(c2) {
        Some((16 * hex_val(c1) + hex_val(c2)) as u8)
    } else {
        None
    }
}

/// The bytes written by the character pairs of `h` (even length).
pub open spec fn hex_bytes(h: Seq<char>) -> Option<Seq<u8>>
    decreases h.len(),
{
    if h.len() < 2 {
        Some(Seq::empty())
    } else {
        match hex_bytes(h.take(h.len() - 2)) {
            None => None,
            Some(p) => match pair_byte(h[h.len() - 2], h[h.len() - 1]) {
                None => None,
                Some(b) => Some(p.push(b)),
            },
        }
    }
}

/// Sum of the bytes of `b`.
pub open spec fn byte_sum(b: Seq<u8>) -> nat
    decreases b.len(),
{
    if b.len() == 0 {
        0
    } else {
        byte_sum(b.drop_last()) + (b.last() as nat)
    }
}

/// An Intel HEX record line (starting with `':'`) decoded to
/// `(address, type, data)`.
pub open spec fn hex_record(line: Seq<char>) -> Result<(u32, u8, Seq<u8>), FirmwareFault> {
    let h = line.drop_first();
    if utf8_len(h) < 10 || utf8_len(h) % 2 == 1 {
        Err(FirmwareFault::HexLineTooShort)
    } else if !all_ascii(h) {
        Err(FirmwareFault::HexBadDigit)
    } else {
        match hex_bytes(h) {
            None => Err(FirmwareFault::HexBadDigit),
            Some(b) => if byte_sum(b) % 256 != 0 {
                Err(FirmwareFault::HexChecksum)
            } else if 4 + b[0] > b.len() {
                Err(FirmwareFault::HexTruncated)
            } else {
                Ok((((b[1] as u32) * 256 + b[2] as u32) as u32, b[3], b.subrange(4, 4 + b[0] as int)))
            },
        }
    }
}

/// Reader state while going through an Intel HEX or TI-TXT file.
pub struct ImageState {
    pub segs: Seq<(u32, Seq<u8>)>,
    pub base: u32,
    pub cur: Option<u32>,
    pub data: Seq<u8>,
}

pub open spec fn wrap32(v: int) -> u32 {
    (v % 0x1_0000_0000) as u32
}

/// The segments once the open one (if it has an address and bytes) is closed.
pub open spec fn flush(st: ImageState) -> Seq<(u32, Seq<u8>)> {
    match st.cur {
        Some(ca) => if st.data.len() > 0 {
            st.segs.push((ca, st.data))
        } else {
            st.segs
        },
        None => st.segs,
    }
}

/// A data record at absolute address `full`: continues the open segment when
/// it is contiguous, else closes it and opens a new one.
pub open spec fn hex_data(st: ImageState, full: u32, d: Seq<u8>) -> ImageState {
    match st.cur {
        Some(ca) => if full == wrap32(ca + st.data.len()) {
            ImageState { data: st.data + d, ..st }
        } else {
            ImageState { segs: flush(st), cur: Some(full), data: d, ..st }
        },
        None => ImageState { cur: Some(full), data: st.data + d, ..st },
    }
}

/// Effect of a non-EOF record.
pub open spec fn hex_apply(st: ImageState, addr: u32, typ: u8, d: Seq<u8>) -> ImageState {
    if typ == 0 {
        hex_data(st, wrap32(st.base + addr), d)
    } else if typ == 2 && d.len() >= 2 {
        ImageState { base: (((d[0] as u32) * 256 + d[1] as u32) * 16) as u32, ..st }
    } else if typ == 4 && d.len() >= 2 {
        ImageState { base: (((d[0] as u32) * 256 + d[1] as u32) * 0x1_0000) as u32, ..st }
    } else {
        st
    }
}

/// Where the bytes of the last data record went: the open segment's
/// address plus the bytes it held before them, modulo 2^32.
pub open spec fn last_placed(st: ImageState, d: Seq<u8>) -> int {
    match st.cur {
        Some(ca) => (ca + st.data.len() - d.len()) % 0x1_0000_0000,
        None => -1,
    }
}

/// Where a data record lands after an address record. After an extended
/// segment address record (type 02) with value `v` (its two bytes, high
/// first), a data record at offset `a` puts its bytes at `v * 16 + a`
/// modulo 2^32; after an extended linear address record (type 04) at
/// `v * 65536 + a` modulo 2^32. Either way the bytes end the open segment,
/// which continues the one before only when they follow on from it.
pub proof fn law_address_records(st: ImageState, x: u32, typ: u8, v: Seq<u8>, a: u32, d: Seq<u8>)
    requires
        typ == 2 || typ == 4,
        v.len() >= 2,
        d.len() > 0,
        st.cur is None ==> st.data.len() == 0,
    ensures
        ({
            let s2 = hex_apply(hex_apply(st, x, typ, v), a, 0, d);
            let value = (v[0] as int) * 256 + (v[1] as int);
            &&& s2.cur is Some
            &&& s2.data.len() >= d.len()
            &&& s2.data.subrange(s2.data.len() - d.len(), s2.data.len() as int) == d
            &&& last_placed(s2, d) == (if typ == 2 { value * 16 + a } else { value * 65536 + a }) % 0x1_0000_0000
        }),
{
    let s1 = hex_apply(st, x, typ, v);
    let value = (v[0] as int) * 256 + (v[1] as int);
    assert(value < 65536);
    let base: int = if typ == 2 { value * 16 } else { value * 65536 };
    assert(base < 0x1_0000_0000);
    assert(s1.base == base);
    assert(s1.cur == st.cur && s1.data == st.data);
    let full = wrap32(s1.base + a);
    assert(full == (base + a) % 0x1_0000_0000);
    let s2 = hex_apply(s1, a, 0, d);
    assert(s2 == hex_data(s1, full, d));
    match s1.cur {
        Some(ca) => {
            if full == wrap32(ca + s1.data.len()) {
                assert(s2.data =~= s1.data + d);
                assert(s2.data.subrange(s2.data.len() - d.len(), s2.data.len() as int) =~= d);
                assert(last_placed(s2, d) == (ca + s1.data.len()) % 0x1_0000_0000);
            } else {
                assert(s2.data.subrange(0, d.len() as int) =~= d);
            }
        },
        None => {
            assert(s2.data =~= d);
            assert(s2.data.subrange(0, d.len() as int) =~= d);
        },
    }
}

/// Reading the Intel HEX text `s` from state `st`: lines that do not start
/// with `':'` (after trimming) are skipped, the EOF record (type 1) ends the
/// file, and a file with no segment at its end is an error.
pub open spec fn hex_lines(s: Seq<char>, st: ImageState) -> SpecFirmware
    decreases s.len(),
{
    if s.len() == 0 {
        if flush(st).len() == 0 {
            Err((FirmwareFault::HexNoData, Seq::empty()))
        } else {
            Ok(flush(st))
        }
    } else {
        proof {
            lemma_find_char(s, '\n');
        }
        let line = trim(next_line(s).0);
        let rest = next_line(s).1;
        if line.len() == 0 || line[0] != ':' {
            hex_lines(rest, st)
        } else {
            match hex_record(line) {
                Err(f) => Err((f, line)),
                Ok((addr, typ, d)) => if typ == 1 {
                    Ok(flush(st))
                } else {
                    hex_lines(rest, hex_apply(st, addr, typ, d))
                },
            }
        }
    }
}

/// The initial reader state.
pub open spec fn image_start() -> ImageState {
    ImageState { segs: Seq::empty(), base: 0, cur: None, data: Seq::empty() }
}

/// Intel HEX reading of a whole text.
pub open spec fn spec_intel_hex(text: Seq<char>) -> SpecFirmware {
    hex_lines(text, image_start())
}

proof fn lemma_hex_bytes_none_extends(h: Seq<char>, i: int, j: int)
    requires
        0 <= i <= j <= h.len(),
        i % 2 == 0,
        j % 2 == 0,
        hex_bytes(h.take(i)) is None,
    ensures
        hex_bytes(h.take(j)) is None,
    decreases j - i,
{
    if i < j {
        lemma_hex_bytes_none_extends(h, i, j - 2);
        assert(h.take(j).take(j - 2) =~= h.take(j - 2));
    }
}

proof fn lemma_byte_sum_mod(b: Seq<u8>, k: int, acc: nat)
    requires
        0 <= k < b.len(),
        acc == byte_sum(b.take(k)) % 256,
    ensures
        (acc + b[k]) % 256 == byte_sum(b.take(k + 1)) % 256,
{
    assert(b.take(k + 1).drop_last() =~= b.take(k));
}

/// Decodes the hex part `line[lo..hi]` of a record into bytes.
fn record_bytes(line: &[char], lo: usize, hi: usize) -> (r: Result<Vec<u8>, FirmwareFault>)
    requires
        lo <= hi <= line@.len(),
    ensures
        ({
            let h = line@.subrange(lo as int, hi as int);
            match r {
                Ok(b) => utf8_len(h) >= 10 && utf8_len(h) % 2 == 0 && all_ascii(h)
                    && hex_bytes(h) == Some(b@),
                Err(f) => (f == FirmwareFault::HexLineTooShort && (utf8_len(h) < 10 || utf8_len(h)
                    % 2 == 1)) || (f == FirmwareFault::HexBadDigit && utf8_len(h) >= 10 && utf8_len(h)
                    % 2 == 0 && (!all_ascii(h) || hex_bytes(h) is None)),
            }
        }),
{
    let ghost h = line@.subrange(lo as int, hi as int);
    let (ascii, capped, odd) = utf8_shape(line, lo, hi, 10);
    if capped < 10 || odd {
        return Err(FirmwareFault::HexLineTooShort);
    }
    if !ascii {
        return Err(FirmwareFault::HexBadDigit);
    }
    proof {
        lemma_ascii_utf8_len(h);
    }
    let mut out: Vec<u8> = Vec::new();
    let mut i = lo;
    while i < hi
        invariant
            lo <= i <= hi <= line@.len(),
            (i - lo) % 2 == 0,
            (hi - lo) % 2 == 0,
            h == line@.subrange(lo as int, hi as int),
            hex_bytes(h.take(i - lo)) == Some(out@),
            utf8_len(h) >= 10,
            utf8_len(h) % 2 == 0,
            all_ascii(h),
        decreases hi - i,
    {
        let c1 = line[i];
        let c2 = line[i + 1];
        let ghost k = (i - lo) as int;
        proof {
            assert(h.take(k + 2).take(k) =~= h.take(k));
            assert(h.take(k + 2)[k] == c1);
            assert(h.take(k + 2)[k + 1] == c2);
        }
        let d1 = hex_digit(c1);
        let d2 = hex_digit(c2);
        let b: u8 = match (d1, d2) {
            (_, None) => {
                proof {
                    assert(pair_byte(c1, c2) is None);
                    assert(hex_bytes(h.take(k + 2)) is None);
                    lemma_hex_bytes_none_extends(h, k + 2, h.len() as int);
                    assert(h.take(h.len() as int) =~= h);
                }
                return Err(FirmwareFault::HexBadDigit);
            }
            (Some(x), Some(y)) => {
                if c1 == '+' {
                    y
                } else {
                    16 * x + y
                }
            }
            (None, Some(y)) => {
                if c1 == '+' {
                    y
                } else {
                    proof {
                        assert(pair_byte(c1, c2) is None);
                        assert(hex_bytes(h.take(k + 2)) is None);
                        lemma_hex_bytes_none_extends(h, k + 2, h.len() as int);
                        assert(h.take(h.len() as int) =~= h);
                    }
                    return Err(FirmwareFault::HexBadDigit);
                }
            }
        };
        proof {
            assert(pair_byte(c1, c2) == Some(b));
        }
        out.push(b);
        i = i + 2;
    }
    proof {
        assert(h.take(h.len() as int) =~= h);
    }
    Ok(out)
}

/// Decodes an Intel HEX record line `line[lo..hi]` (which starts with `':'`).
fn decode_record(line: &[char], lo: usize, hi: usize) -> (r: Result<(u32, u8, Vec<u8>), FirmwareFault>)
    requires
        lo < hi <= line@.len(),
        line@[lo as int] == ':',
    ensures
        match r {
            Ok((a, t, d)) => hex_record(line@.subrange(lo as int, hi as int)) == Ok::<
                (u32, u8, Seq<u8>),
                FirmwareFault,
            >((a, t, d@)),
            Err(f) => hex_record(line@.subrange(lo as int, hi as int)) == Err::<
                (u32, u8, Seq<u8>),
                FirmwareFault,
            >(f),
        },
{
    let ghost whole = line@.subrange(lo as int, hi as int);
    proof {
        assert(whole.drop_first() =~= line@.subrange(lo + 1, hi as int));
    }
    let bytes = match record_bytes(line, lo + 1, hi) {
        Ok(b) => b,
        Err(f) => {
            return Err(f);
        },
    };
    let mut sum: u32 = 0;
    let mut k: usize = 0;
    while k < bytes.len()
        invariant
            k <= bytes@.len(),
            sum < 256,
            sum == byte_sum(bytes@.take(k as int)) % 256,
        decreases bytes.len() - k,
    {
        proof {
            lemma_byte_sum_mod(bytes@, k as int, sum as nat);
        }
        sum = (sum + bytes[k] as u32) % 256;
        k = k + 1;
    }
    proof {
        assert(bytes@.take(bytes@.len() as int) =~= bytes@);
        lemma_ascii_utf8_len(line@.subrange(lo + 1, hi as int));
    }
    if sum != 0 {
        return Err(FirmwareFault::HexChecksum);
    }
    let len = bytes[0] as usize;
    if 4 + len > bytes.len() {
        return Err(FirmwareFault::HexTruncated);
    }
    let end: usize = 4 + len;
    let mut data: Vec<u8> = Vec::new();
    let mut j: usize = 4;
    while j < end
        invariant
            4 <= j <= end <= bytes@.len(),
            end == 4 + len,
            data@ == bytes@.subrange(4, j as int),
        decreases end - j,
    {
        data.push(bytes[j]);
        proof {
            assert(data@ =~= bytes@.subrange(4, j + 1));
        }
        j = j + 1;
    }
    let addr: u32 = (bytes[1] as u32) * 256 + bytes[2] as u32;
    Ok((addr, bytes[3], data))
}

/// Appends `src` to `dst`.
pub fn append_bytes(dst: &mut Vec<u8>, src: &[u8])
    ensures
        final(dst)@ == old(dst)@ + src@,
{
    let mut i: usize = 0;
    while i < src.len()
        invariant
            i <= src@.len(),
            dst@ == old(dst)@ + src@.subrange(0, i as int),
        decreases src.len() - i,
    {
        dst.push(src[i]);
        proof {
            assert(dst@ =~= old(dst)@ + src@.subrange(0, i + 1));
        }
        i = i + 1;
    }
    proof {
        assert(src@.subrange(0, src@.len() as int) =~= src@);
    }
}

/// Executable reader state and its view.
struct ImageReader {
    segments: Vec<Segment>,
    base: u32,
    cur_addr: Option<u32>,
    cur_data: Vec<u8>,
}

impl ImageReader {
    spec fn view(&self) -> ImageState {
        ImageState {
            segs: segs_view(self.segments@),
            base: self.base,
            cur: self.cur_addr,
            data: self.cur_data@,
        }
    }

    fn new() -> (r: ImageReader)
        ensures
            r.view() == image_start(),
    {
        let r = ImageReader { segments: Vec::new(), base: 0, cur_addr: None, cur_data: Vec::new() };
        proof {
            assert(segs_view(r.segments@) =~= Seq::<(u32, Seq<u8>)>::empty());
        }
        r
    }

    /// Closes the open segment into the list.
    fn flush(&mut self)
        ensures
            segs_view(final(self).segments@) == flush(old(self).view()),
            final(self).cur_addr is None,
            final(self).base == old(self).base,
            final(self).cur_data@ == (if old(self).cur_addr is Some { Seq::<u8>::empty() } else { old(self).cur_data@ }),
    {
        if let Some(ca) = self.cur_addr {
            if self.cur_data.len() > 0 {
                let mut data: Vec<u8> = Vec::new();
                std::mem::swap(&mut data, &mut self.cur_data);
                let ghost before = self.segments@;
                self.segments.push(Segment { address: ca, data });
                proof {
                    assert(segs_view(self.segments@) =~= segs_view(before).push((ca, data@)));
                }
            }
            self.cur_addr = None;
        }
    }

    fn data(&mut self, full: u32, d: Vec<u8>)
        ensures
            final(self).view() == hex_data(old(self).view(), full, d@),
    {
        match self.cur_addr {
            Some(ca) => {
                let len32: u32 = ((self.cur_data.len() as u64) % 0x1_0000_0000) as u32;
                let next: u32 = ((ca as u64 + len32 as u64) % 0x1_0000_0000) as u32;
                if full == next {
                    append_bytes(&mut self.cur_data, d.as_slice());
                } else {
                    self.flush();
                    self.cur_addr = Some(full);
                    self.cur_data = d;
                }
            },
            None => {
                self.cur_addr = Some(full);
                append_bytes(&mut self.cur_data, d.as_slice());
            },
        }
    }

    fn finish(self, empty_fault: FirmwareFault) -> (r: Result<Vec<Segment>, FirmwareError>)
        ensures
            firmware_view(r) == (if flush(self.view()).len() == 0 {
                Err((empty_fault, Seq::<char>::empty()))
            } else {
                Ok(flush(self.view()))
            }),
    {
        let mut me = self;
        me.flush();
        if me.segments.len() == 0 {
            Err(FirmwareError { kind: empty_fault, detail: String::new() })
        } else {
            Ok(me.segments)
        }
    }
}

/// Reads an Intel HEX image: data records (type 0) are merged into
/// contiguous segments, extended-address records (types 2 and 4) move the
/// base, and the EOF record (type 1) ends the image.
pub fn parse_intel_hex(text: &str) -> (r: Result<Vec<Segment>, FirmwareError>)
    ensures
        firmware_view(r) == spec_intel_hex(text@),
{
    let s = chars_of(text);
    let mut rd = ImageReader::new();
    let mut pos: usize = 0;
    proof {
        assert(s@.skip(0) =~= s@);
    }
    while pos < s.len()
        invariant
            pos <= s@.len(),
            s@ == text@,
            hex_lines(s@, image_start()) == hex_lines(s@.skip(pos as int), rd.view()),
        decreases s.len() - pos,
    {
        let ghost rest_here = s@.skip(pos as int);
        let (end, next) = line_at(s.as_slice(), pos);
        let (a, b) = trim_bounds(s.as_slice(), pos, end);
        proof {
            assert(s@.subrange(pos as int, end as int) == next_line(rest_here).0);
        }
        if a < b && s[a] == ':' {
            match decode_record(s.as_slice(), a, b) {
                Err(f) => {
                    return Err(FirmwareError { kind: f, detail: string_from(&s.as_slice()[a..b]) });
                },
                Ok((addr, typ, d)) => {
                    if typ == 1 {
                        rd.flush();
                        return Ok(rd.segments);
                    }
                    if typ == 0 {
                        let full: u32 = ((rd.base as u64 + addr as u64) % 0x1_0000_0000) as u32;
                        rd.data(full, d);
                    } else if typ == 2 && d.len() >= 2 {
                        rd.base = ((d[0] as u32) * 256 + d[1] as u32) * 16;
                    } else if typ == 4 && d.len() >= 2 {
                        rd.base = ((d[0] as u32) * 256 + d[1] as u32) * 0x1_0000;
                    }
                },
            }
        }
        pos = next;
    }
    proof {
        assert(s@.skip(pos as int) =~= Seq::<char>::empty());
    }
    rd.finish(FirmwareFault::HexNoData)
}

/// A two-byte (UTF-8) TI-TXT token read as a hexadecimal byte.
pub open spec fn token_byte(t: Seq<char>) -> Option<u8> {
    if t.len() == 2 {
        pair_byte(t[0], t[1])
    } else {
        None
    }
}

/// The bytes of a TI-TXT data line appended to `acc`: tokens separated by
/// whitespace; a token of two UTF-8 bytes must be a hex byte, other tokens
/// are ignored. An error carries the offending token.
pub open spec fn ti_tokens(l: Seq<char>, acc: Seq<u8>) -> Result<Seq<u8>, Seq<char>>
    decreases l.len(),
{
    let l2 = l.skip(ws_prefix(l) as int);
    if ws_prefix(l) >= l.len() {
        Ok(acc)
    } else {
        proof {
            lemma_ws_prefix_bound(l);
            lemma_word_len(l2);
        }
        let t = l2.take(word_len(l2) as int);
        let rest = l2.skip(word_len(l2) as int);
        if word_len(l2) == 0 {
            Ok(acc)
        } else if utf8_len(t) == 2 {
            match token_byte(t) {
                None => Err(t),
                Some(b) => ti_tokens(rest, acc.push(b)),
            }
        } else {
            ti_tokens(rest, acc)
        }
    }
}

/// The state after a blank, `q` or `@` line closes the open segment.
pub open spec fn ti_close(st: ImageState) -> ImageState {
    ImageState {
        segs: flush(st),
        cur: None,
        data: if st.cur is Some { Seq::empty() } else { st.data },
        ..st
    }
}

/// Reading the TI-TXT text `s` from state `st`: `@addr` starts a segment,
/// blank lines and `q` close it, other lines hold bytes.
pub open spec fn ti_lines(s: Seq<char>, st: ImageState) -> SpecFirmware
    decreases s.len(),
{
    if s.len() == 0 {
        if flush(st).len() == 0 {
            Err((FirmwareFault::TiNoData, Seq::empty()))
        } else {
            Ok(flush(st))
        }
    } else {
        proof {
            lemma_find_char(s, '\n');
        }
        let line = trim(next_line(s).0);
        let rest = next_line(s).1;
        if line.len() == 0 || line == seq!['q'] || line == seq!['Q'] {
            ti_lines(rest, ti_close(st))
        } else if line[0] == '@' {
            match parse_hex_u32(trim(line.drop_first())) {
                None => Err((FirmwareFault::TiBadAddress, line)),
                Some(a) => ti_lines(rest, ImageState { cur: Some(a), ..ti_close(st) }),
            }
        } else {
            match ti_tokens(line, st.data) {
                Err(t) => Err((FirmwareFault::TiBadByte, t)),
                Ok(d) => ti_lines(rest, ImageState { data: d, ..st }),
            }
        }
    }
}

/// TI-TXT reading of a whole text.
pub open spec fn spec_ti_txt(text: Seq<char>) -> SpecFirmware {
    ti_lines(text, image_start())
}

/// Appends the bytes of the data line `s[lo..hi]` to `out`.
fn ti_data_line(s: &[char], lo: usize, hi: usize, out: &mut Vec<u8>) -> (r: Result<(), (usize, usize)>)
    requires
        lo <= hi <= s@.len(),
    ensures
        match r {
            Ok(()) => ti_tokens(s@.subrange(lo as int, hi as int), old(out)@) == Ok::<Seq<u8>, Seq<char>>(final(out)@),
            Err((a, b)) => a <= b <= s@.len() && ti_tokens(s@.subrange(lo as int, hi as int), old(out)@)
                == Err::<Seq<u8>, Seq<char>>(s@.subrange(a as int, b as int)),
        },
{
    let mut k = lo;
    while k < hi
        invariant
            lo <= k <= hi <= s@.len(),
            ti_tokens(s@.subrange(lo as int, hi as int), old(out)@) == ti_tokens(
                s@.subrange(k as int, hi as int),
                out@,
            ),
        decreases hi - k,
    {
        let ghost l = s@.subrange(k as int, hi as int);
        let a = skip_ws(s, k, hi);
        proof {
            lemma_ws_prefix_bound(l);
        }
        if a == hi {
            proof {
                assert(s@.subrange(hi as int, hi as int) =~= Seq::<char>::empty());
            }
            k = hi;
        } else {
        let b = skip_word(s, a, hi);
        proof {
            let l2 = l.skip(ws_prefix(l) as int);
            assert(l2 =~= s@.subrange(a as int, hi as int));
            lemma_word_len(l2);
            assert(l2.take(word_len(l2) as int) =~= s@.subrange(a as int, b as int));
            assert(l2.skip(word_len(l2) as int) =~= s@.subrange(b as int, hi as int));
        }
        let (ascii, capped, _odd) = crate::text::utf8_shape(s, a, b, 3);
        if capped == 2 {
            let ghost t = s@.subrange(a as int, b as int);
            let mut byte: Option<u8> = None;
            if b - a == 2 {
                let c1 = s[a];
                let c2 = s[a + 1];
                let d1 = hex_digit(c1);
                let d2 = hex_digit(c2);
                byte = match (d1, d2) {
                    (Some(x), Some(y)) => if c1 == '+' { Some(y) } else { Some(16 * x + y) },
                    (None, Some(y)) => if c1 == '+' { Some(y) } else { None },
                    _ => None,
                };
                proof {
                    assert(t[0] == c1 && t[1] == c2);
                }
            }
            match byte {
                None => {
                    return Err((a, b));
                },
                Some(v) => {
                    out.push(v);
                },
            }
        }
        k = b;
        }
    }
    proof {
        assert(s@.subrange(k as int, hi as int) =~= Seq::<char>::empty());
    }
    Ok(())
}

/// Reads a TI-TXT image (`@address` lines followed by lines of hex bytes,
/// ended by `q`).
pub fn parse_ti_txt(text: &str) -> (r: Result<Vec<Segment>, FirmwareError>)
    ensures
        firmware_view(r) == spec_ti_txt(text@),
{
    let s = chars_of(text);
    let mut rd = ImageReader::new();
    let mut pos: usize = 0;
    proof {
        assert(s@.skip(0) =~= s@);
    }
    while pos < s.len()
        invariant
            pos <= s@.len(),
            s@ == text@,
            ti_lines(s@, image_start()) == ti_lines(s@.skip(pos as int), rd.view()),
        decreases s.len() - pos,
    {
        let ghost rest_here = s@.skip(pos as int);
        let (end, next) = line_at(s.as_slice(), pos);
        let (a, b) = trim_bounds(s.as_slice(), pos, end);
        let ghost line = s@.subrange(a as int, b as int);
        proof {
            assert(s@.subrange(pos as int, end as int) == next_line(rest_here).0);
        }
        if a == b || (b - a == 1 && (s[a] == 'q' || s[a] == 'Q')) {
            proof {
                if b - a == 1 {
                    assert(line =~= seq![s@[a as int]]);
                }
            }
            rd.flush();
        } else if s[a] == '@' {
            proof {
                assert(!(line =~= seq!['q']) && !(line =~= seq!['Q']));
            }
            rd.flush();
            let (c, d) = trim_bounds(s.as_slice(), a + 1, b);
            proof {
                assert(line.drop_first() =~= s@.subrange(a + 1, b as int));
            }
            match hex_u32(s.as_slice(), c, d) {
                None => {
                    return Err(
                        FirmwareError { kind: FirmwareFault::TiBadAddress, detail: string_from(&s.as_slice()[a..b]) },
                    );
                },
                Some(addr) => {
                    rd.cur_addr = Some(addr);
                },
            }
        } else {
            proof {
                if b - a == 1 {
                    assert(!(line =~= seq!['q']) && !(line =~= seq!['Q'])) by {
                        if line =~= seq!['q'] || line =~= seq!['Q'] {
                            assert(line[0] == s@[a as int]);
                        }
                    }
                }
            }
            match ti_data_line(s.as_slice(), a, b, &mut rd.cur_data) {
                Err((x, y)) => {
                    return Err(
                        FirmwareError { kind: FirmwareFault::TiBadByte, detail: string_from(&s.as_slice()[x..y]) },
                    );
                },
                Ok(()) => {},
            }
        }
        pos = next;
    }
    proof {
        assert(s@.skip(pos as int) =~= Seq::<char>::empty());
    }
    rd.finish(FirmwareFault::TiNoData)
}

/// Name for what `String::from_utf8_lossy` makes of bytes: the UTF-8
/// decoding with each invalid sequence replaced by U+FFFD.
pub uninterp spec fn utf8_lossy(bytes: Seq<u8>) -> Seq<char>;

/// `std::str::from_utf8`: the text when `data` is valid UTF-8.
#[verifier::external_body]
pub(crate) fn utf8_text(data: &[u8]) -> (r: Option<&str>)
    ensures
        r is Some <==> valid_utf8(data@),
        r matches Some(t) ==> t@ == decode_utf8(data@),
{
    std::str::from_utf8(data).ok()
}

/// `String::from_utf8_lossy`: the text of `data`, invalid sequences replaced.
#[verifier::external_body]
fn utf8_lossy_text(data: &[u8]) -> (r: String)
    ensures
        r@ == utf8_lossy(data@),
        valid_utf8(data@) ==> r@ == decode_utf8(data@),
{
    String::from_utf8_lossy(data).into_owned()
}

/// How a firmware file is read, by its lower-cased extension and content:
/// `.hex` as Intel HEX, `.txt` as Intel HEX when it starts with `':'` and as
/// TI-TXT otherwise (both must be UTF-8), `.bin` or no extension as a raw
/// image at address 0 (which must not be empty), and any other file as
/// Intel HEX when its first byte is `':'`, as TI-TXT when it holds an `'@'`,
/// else as a raw image.
pub open spec fn spec_firmware_image(ext: Seq<char>, data: Seq<u8>) -> SpecFirmware {
    if ext == seq!['h', 'e', 'x'] {
        if !valid_utf8(data) {
            Err((FirmwareFault::NotUtf8, Seq::empty()))
        } else {
            spec_intel_hex(decode_utf8(data))
        }
    } else if ext == seq!['t', 'x', 't'] {
        if !valid_utf8(data) {
            Err((FirmwareFault::NotUtf8, Seq::empty()))
        } else {
            let t = trim_start(decode_utf8(data));
            if t.len() > 0 && t[0] == ':' {
                spec_intel_hex(decode_utf8(data))
            } else {
                spec_ti_txt(decode_utf8(data))
            }
        }
    } else if ext == seq!['b', 'i', 'n'] || ext.len() == 0 {
        if data.len() == 0 {
            Err((FirmwareFault::EmptyImage, Seq::empty()))
        } else {
            Ok(seq![(0u32, data)])
        }
    } else if data.len() > 0 && data[0] == 0x3A {
        spec_intel_hex(utf8_lossy(data))
    } else if data.contains(0x40) {
        spec_ti_txt(utf8_lossy(data))
    } else {
        Ok(seq![(0u32, data)])
    }
}

fn copy_bytes(data: &[u8]) -> (v: Vec<u8>)
    ensures
        v@ == data@,
{
    let mut v: Vec<u8> = Vec::new();
    append_bytes(&mut v, data);
    v
}

fn single_segment(data: &[u8]) -> (r: Vec<Segment>)
    ensures
        segs_view(r@) == seq![(0u32, data@)],
{
    let mut v: Vec<Segment> = Vec::new();
    v.push(Segment { address: 0, data: copy_bytes(data) });
    proof {
        assert(segs_view(v@) =~= seq![(0u32, data@)]);
    }
    v
}

/// Reads a firmware file's bytes by its extension (case-insensitive).
pub fn firmware_image(extension: &str, data: &[u8]) -> (r: Result<Vec<Segment>, FirmwareError>)
    ensures
        firmware_view(r) == spec_firmware_image(to_ascii_lowercase(extension@), data@),
{
    let ext_chars = chars_of(extension);
    let ext = ascii_lower(ext_chars.as_slice());
    let is_hex = ext.len() == 3 && ext[0] == 'h' && ext[1] == 'e' && ext[2] == 'x';
    let is_txt = ext.len() == 3 && ext[0] == 't' && ext[1] == 'x' && ext[2] == 't';
    let is_bin = ext.len() == 3 && ext[0] == 'b' && ext[1] == 'i' && ext[2] == 'n';
    proof {
        if ext.len() == 3 {
            assert(is_hex <==> ext@ =~= seq!['h', 'e', 'x']);
            assert(is_txt <==> ext@ =~= seq!['t', 'x', 't']);
            assert(is_bin <==> ext@ =~= seq!['b', 'i', 'n']);
        }
    }
    if is_hex || is_txt {
        let text = match utf8_text(data) {
            None => {
                return Err(FirmwareError { kind: FirmwareFault::NotUtf8, detail: String::new() });
            },
            Some(t) => t,
        };
        if is_hex {
            return parse_intel_hex(text);
        }
        let tc = chars_of(text);
        let k = skip_ws_at(tc.as_slice(), 0, tc.len());
        proof {
            assert(tc@.subrange(0, tc@.len() as int) =~= tc@);
            assert(trim_start(tc@) =~= tc@.subrange(k as int, tc@.len() as int));
        }
        if k < tc.len() && tc[k] == ':' {
            parse_intel_hex(text)
        } else {
            parse_ti_txt(text)
        }
    } else if is_bin || ext.len() == 0 {
        if data.len() == 0 {
            Err(FirmwareError { kind: FirmwareFault::EmptyImage, detail: String::new() })
        } else {
            Ok(single_segment(data))
        }
    } else if data.len() > 0 && data[0] == 0x3A {
        let text = utf8_lossy_text(data);
        parse_intel_hex(text.as_str())
    } else {
        let mut has_at = false;
        let mut i: usize = 0;
        while i < data.len()
            invariant
                i <= data@.len(),
                has_at == data@.subrange(0, i as int).contains(0x40),
            decreases data.len() - i,
        {
            proof {
                let p = data@.subrange(0, i as int);
                let q = data@.subrange(0, i + 1);
                assert(q.drop_last() =~= p);
                if p.contains(0x40) {
                    let j = choose|j: int| 0 <= j < p.len() && p[j] == 0x40;
                    assert(q[j] == 0x40);
                }
                if data@[i as int] == 0x40 {
                    assert(q[i as int] == 0x40);
                }
                if q.contains(0x40) && data@[i as int] != 0x40 {
                    let j = choose|j: int| 0 <= j < q.len() && q[j] == 0x40;
                    assert(p[j] == 0x40);
                }
            }
            has_at = has_at || data[i] == 0x40;
            i = i + 1;
        }
        proof {
            assert(data@.subrange(0, data@.len() as int) =~= data@);
        }
        if has_at {
            let text = utf8_lossy_text(data);
            parse_ti_txt(text.as_str())
        } else {
            Ok(single_segment(data))
        }
    }
}

/// Total number of image bytes.
pub open spec fn total_bytes(segs: Seq<(u32, Seq<u8>)>) -> nat
    decreases segs.len(),
{
    if segs.len() == 0 {
        0
    } else {
        total_bytes(segs.drop_last()) + segs.last().1.len()
    }
}

/// The ProgramData chunks of `d[off..]` placed at `addr`: at most
/// `MAX_DATA_CHUNK` bytes each, at address `addr + off` (wrapping).
pub open spec fn seg_chunks(addr: u32, d: Seq<u8>, off: nat) -> Seq<(u32, Seq<u8>)>
    decreases d.len() - off,
{
    if off >= d.len() {
        Seq::empty()
    } else {
        let end = if off + MAX_DATA_CHUNK < d.len() { off + MAX_DATA_CHUNK } else { d.len() as int };
        seq![(wrap32(addr + off), d.subrange(off as int, end))] + seg_chunks(addr, d, end as nat)
    }
}

/// The chunks of every segment, in order.
pub open spec fn image_chunks(segs: Seq<(u32, Seq<u8>)>) -> Seq<(u32, Seq<u8>)>
    decreases segs.len(),
{
    if segs.len() == 0 {
        Seq::empty()
    } else {
        image_chunks(segs.drop_last()) + seg_chunks(segs.last().0, segs.last().1, 0)
    }
}

/// The bytes of all segments, one after the other.
pub open spec fn data_of(segs: Seq<(u32, Seq<u8>)>) -> Seq<u8>
    decreases segs.len(),
{
    if segs.len() == 0 {
        Seq::empty()
    } else {
        data_of(segs.drop_last()) + segs.last().1
    }
}

proof fn lemma_data_of_concat(a: Seq<(u32, Seq<u8>)>, b: Seq<(u32, Seq<u8>)>)
    ensures
        data_of(a + b) == data_of(a) + data_of(b),
    decreases b.len(),
{
    if b.len() == 0 {
        assert(a + b =~= a);
        assert(data_of(a) + data_of(b) =~= data_of(a));
    } else {
        lemma_data_of_concat(a, b.drop_last());
        assert((a + b).drop_last() =~= a + b.drop_last());
        assert(data_of(a) + data_of(b.drop_last()) + b.last().1 =~= data_of(a) + (data_of(b.drop_last())
            + b.last().1));
    }
}

proof fn lemma_seg_chunks(addr: u32, d: Seq<u8>, off: nat)
    requires
        off <= d.len(),
    ensures
        data_of(seg_chunks(addr, d, off)) == d.subrange(off as int, d.len() as int),
        forall|k: int|
            0 <= k < seg_chunks(addr, d, off).len() ==> 0 < (#[trigger] seg_chunks(addr, d, off)[k]).1.len()
                <= MAX_DATA_CHUNK,
        seg_chunks(addr, d, off).len() > 0 ==> seg_chunks(addr, d, off)[0].0 == wrap32(addr + off),
        forall|k: int|
            0 <= k < seg_chunks(addr, d, off).len() - 1 ==> (#[trigger] seg_chunks(addr, d, off)[k + 1]).0
                == wrap32(seg_chunks(addr, d, off)[k].0 + seg_chunks(addr, d, off)[k].1.len()),
    decreases d.len() - off,
{
    let c = seg_chunks(addr, d, off);
    if off < d.len() {
        let end = if off + MAX_DATA_CHUNK < d.len() { off + MAX_DATA_CHUNK } else { d.len() as int };
        let head = (wrap32(addr + off), d.subrange(off as int, end));
        let rest = seg_chunks(addr, d, end as nat);
        lemma_seg_chunks(addr, d, end as nat);
        assert(c == seq![head] + rest);
        lemma_data_of_concat(seq![head], rest);
        assert(seq![head].drop_last() =~= Seq::<(u32, Seq<u8>)>::empty());
        assert(data_of(seq![head].drop_last()) =~= Seq::<u8>::empty());
        assert(data_of(seq![head]) =~= head.1);
        assert(d.subrange(off as int, end) + d.subrange(end, d.len() as int) =~= d.subrange(
            off as int,
            d.len() as int,
        ));
        assert forall|k: int| 0 <= k < c.len() implies 0 < (#[trigger] c[k]).1.len() <= MAX_DATA_CHUNK by {
            if k > 0 {
                assert(c[k] == rest[k - 1]);
            }
        }
        assert forall|k: int| 0 <= k < c.len() - 1 implies (#[trigger] c[k + 1]).0 == wrap32(
            c[k].0 + c[k].1.len(),
        ) by {
            if k == 0 {
                assert(c[1] == rest[0]);
                assert(rest[0].0 == wrap32(addr + end));
                assert(c[0].1.len() == end - off);
                let m: int = 0x1_0000_0000;
                let x: int = addr + off;
                let y: int = end - off;
                vstd::arithmetic::div_mod::lemma_add_mod_noop(x, y, m);
                vstd::arithmetic::div_mod::lemma_small_mod(y as nat, m as nat);
                vstd::arithmetic::div_mod::lemma_mod_bound(x, m);
                assert((x % m + y) % m == (x + y) % m);
                assert(c[0].0 as int == x % m);
                assert(x + y == addr + end);
            } else {
                assert(c[k] == rest[k - 1] && c[k + 1] == rest[k]);
                assert(rest[(k - 1) + 1].0 == wrap32(rest[k - 1].0 + rest[k - 1].1.len()));
            }
        }
    } else {
        assert(d.subrange(off as int, d.len() as int) =~= Seq::<u8>::empty());
    }
}

/// The ProgramData chunks carry the image exactly: their bytes, one after
/// the other, are the bytes of the segments (as many as the plan's total);
/// each chunk holds between one
/// and `MAX_DATA_CHUNK` bytes; and within a segment the first chunk goes to
/// the segment's address and each next chunk right after the one before
/// (addresses wrapping at 2^32).
pub proof fn law_chunks_cover_image(segs: Seq<(u32, Seq<u8>)>)
    ensures
        data_of(image_chunks(segs)) == data_of(segs),
        data_of(segs).len() == total_bytes(segs),
        forall|k: int|
            0 <= k < image_chunks(segs).len() ==> 0 < (#[trigger] image_chunks(segs)[k]).1.len()
                <= MAX_DATA_CHUNK,
    decreases segs.len(),
{
    if segs.len() > 0 {
        let pre = image_chunks(segs.drop_last());
        let last = seg_chunks(segs.last().0, segs.last().1, 0);
        law_chunks_cover_image(segs.drop_last());
        lemma_seg_chunks(segs.last().0, segs.last().1, 0);
        lemma_data_of_concat(pre, last);
        assert(segs.last().1.subrange(0, segs.last().1.len() as int) =~= segs.last().1);
        let c = image_chunks(segs);
        assert forall|k: int| 0 <= k < c.len() implies 0 < (#[trigger] c[k]).1.len() <= MAX_DATA_CHUNK by {
            if k < pre.len() {
                assert(c[k] == pre[k]);
            } else {
                assert(c[k] == last[k - pre.len()]);
            }
        }
    }
}

/// The chunks of one segment start at its address and follow each other
/// without gap or overlap (addresses wrapping at 2^32), and carry its bytes.
pub proof fn law_segment_chunks_contiguous(addr: u32, d: Seq<u8>)
    ensures
        data_of(seg_chunks(addr, d, 0)) == d,
        d.len() > 0 ==> seg_chunks(addr, d, 0)[0].0 == addr,
        forall|k: int|
            0 <= k < seg_chunks(addr, d, 0).len() - 1 ==> (#[trigger] seg_chunks(addr, d, 0)[k + 1]).0
                == wrap32(seg_chunks(addr, d, 0)[k].0 + seg_chunks(addr, d, 0)[k].1.len()),
{
    lemma_seg_chunks(addr, d, 0);
    assert(d.subrange(0, d.len() as int) =~= d);
    if d.len() > 0 {
        vstd::arithmetic::div_mod::lemma_small_mod(addr as nat, 0x1_0000_0000);
    }
}

/// Why an image cannot be flashed.
#[derive(Clone, Debug)]
pub enum FlashError {
    /// No segment at all.
    NoSegments,
    /// Segments without bytes.
    EmptyImage,
    /// More than `MAX_IMAGE_BYTES` bytes (the total is given).
    TooLarge(u128),
    /// The firmware file could not be read.
    Firmware(FirmwareError),
}

/// What the flasher does with an image: the bootloader baud rate, whether it
/// first asks the running application to enter the bootloader, the image
/// and its ProgramData chunks.
#[derive(Clone, Debug)]
pub struct FlashPlan {
    pub baud: u32,
    pub enter_bsl: bool,
    pub total: usize,
    pub segments: Vec<Segment>,
    pub chunks: Vec<Segment>,
}

/// The plan for flashing `segs`, or why it is refused.
pub open spec fn plan_ok(p: FlashPlan, segs: Seq<(u32, Seq<u8>)>, already_in_bsl: bool, bsl_baud: u32) -> bool {
    &&& p.baud == (if bsl_baud == 0 { DEFAULT_BSL_BAUD } else { bsl_baud })
    &&& p.enter_bsl == !already_in_bsl
    &&& p.total == total_bytes(segs)
    &&& segs_view(p.segments@) == segs
    &&& segs_view(p.chunks@) == image_chunks(segs)
}

/// The refusal (if any) for flashing `segs`.
pub open spec fn plan_refusal(segs: Seq<(u32, Seq<u8>)>) -> Option<FlashError> {
    if segs.len() == 0 {
        Some(FlashError::NoSegments)
    } else if total_bytes(segs) == 0 {
        Some(FlashError::EmptyImage)
    } else if total_bytes(segs) > MAX_IMAGE_BYTES {
        Some(FlashError::TooLarge(total_bytes(segs) as u128))
    } else {
        None
    }
}

proof fn lemma_total_take(segs: Seq<(u32, Seq<u8>)>, i: int)
    requires
        0 <= i < segs.len(),
    ensures
        total_bytes(segs.take(i + 1)) == total_bytes(segs.take(i)) + segs[i].1.len(),
        image_chunks(segs.take(i + 1)) == image_chunks(segs.take(i)) + seg_chunks(segs[i].0, segs[i].1, 0),
{
    assert(segs.take(i + 1).drop_last() =~= segs.take(i));
}

/// Copies `d[lo..hi]`.
fn copy_range(d: &[u8], lo: usize, hi: usize) -> (v: Vec<u8>)
    requires
        lo <= hi <= d@.len(),
    ensures
        v@ == d@.subrange(lo as int, hi as int),
{
    let mut v: Vec<u8> = Vec::new();
    let mut j = lo;
    while j < hi
        invariant
            lo <= j <= hi <= d@.len(),
            v@ == d@.subrange(lo as int, j as int),
        decreases hi - j,
    {
        v.push(d[j]);
        proof {
            assert(v@ =~= d@.subrange(lo as int, j + 1));
        }
        j = j + 1;
    }
    v
}

/// Appends the ProgramData chunks of one segment.
fn push_chunks(seg: &Segment, out: &mut Vec<Segment>)
    ensures
        segs_view(final(out)@) == segs_view(old(out)@) + seg_chunks(seg.address, seg.data@, 0),
{
    let d = seg.data.as_slice();
    let mut off: usize = 0;
    proof {
        assert(segs_view(out@) =~= segs_view(old(out)@) + Seq::<(u32, Seq<u8>)>::empty());
    }
    while off < d.len()
        invariant
            off <= d@.len(),
            d@ == seg.data@,
            segs_view(out@) + seg_chunks(seg.address, seg.data@, off as nat) == segs_view(old(out)@)
                + seg_chunks(seg.address, seg.data@, 0),
        decreases d.len() - off,
    {
        let end: usize = if d.len() - off > MAX_DATA_CHUNK { off + MAX_DATA_CHUNK } else { d.len() };
        let off32: u64 = (off as u64) % 0x1_0000_0000;
        let address: u32 = ((seg.address as u64 + off32) % 0x1_0000_0000) as u32;
        proof {
            vstd::arithmetic::div_mod::lemma_add_mod_noop_right(seg.address as int, off as int, 0x1_0000_0000);
        }
        let data = copy_range(d, off, end);
        let ghost before = segs_view(out@);
        out.push(Segment { address, data });
        proof {
            assert(segs_view(out@) =~= before.push((address, data@)));
            let rest = seg_chunks(seg.address, seg.data@, end as nat);
            assert(seg_chunks(seg.address, seg.data@, off as nat) =~= seq![(address, data@)] + rest);
            assert(before.push((address, data@)) + rest =~= before + (seq![(address, data@)] + rest));
        }
        off = end;
    }
    proof {
        assert(segs_view(out@) + Seq::<(u32, Seq<u8>)>::empty() =~= segs_view(out@));
    }
}

/// Checks an image for flashing and splits it into ProgramData chunks:
/// refused when there is no segment, no byte, or more than
/// `MAX_IMAGE_BYTES` bytes; a zero `bsl_baud` means `DEFAULT_BSL_BAUD`.
pub fn flash_segments(segments: &[Segment], already_in_bsl: bool, bsl_baud: u32) -> (r: Result<FlashPlan, FlashError>)
    ensures
        match r {
            Ok(p) => plan_refusal(segs_view(segments@)) is None && plan_ok(p, segs_view(segments@), already_in_bsl, bsl_baud),
            Err(e) => plan_refusal(segs_view(segments@)) == Some(e),
        },
{
    let ghost sv = segs_view(segments@);
    if segments.len() == 0 {
        return Err(FlashError::NoSegments);
    }
    let mut total: u128 = 0;
    let mut chunks: Vec<Segment> = Vec::new();
    let mut copies: Vec<Segment> = Vec::new();
    let mut i: usize = 0;
    proof {
        assert(sv.take(0) =~= Seq::<(u32, Seq<u8>)>::empty());
        assert(segs_view(chunks@) =~= Seq::<(u32, Seq<u8>)>::empty());
        assert(segs_view(copies@) =~= Seq::<(u32, Seq<u8>)>::empty());
    }
    while i < segments.len()
        invariant
            i <= segments@.len(),
            sv == segs_view(segments@),
            total == total_bytes(sv.take(i as int)),
            total <= i * 0x1_0000_0000_0000_0000,
            segs_view(chunks@) == image_chunks(sv.take(i as int)),
            segs_view(copies@) == sv.take(i as int),
        decreases segments.len() - i,
    {
        proof {
            lemma_total_take(sv, i as int);
            assert(sv[i as int] == seg_view(segments@[i as int]));
        }
        total = total + segments[i].data.len() as u128;
        push_chunks(&segments[i], &mut chunks);
        let ghost before = segs_view(copies@);
        copies.push(Segment { address: segments[i].address, data: copy_bytes(segments[i].data.as_slice()) });
        proof {
            assert(segs_view(copies@) =~= before.push(sv[i as int]));
            assert(sv.take(i + 1) =~= sv.take(i as int).push(sv[i as int]));
        }
        i = i + 1;
    }
    proof {
        assert(sv.take(segments@.len() as int) =~= sv);
    }
    if total == 0 {
        return Err(FlashError::EmptyImage);
    }
    if total > MAX_IMAGE_BYTES as u128 {
        return Err(FlashError::TooLarge(total));
    }
    let baud = if bsl_baud == 0 { DEFAULT_BSL_BAUD } else { bsl_baud };
    Ok(FlashPlan { baud, enter_bsl: !already_in_bsl, total: total as usize, segments: copies, chunks })
}

/// Plans flashing a raw image placed at address 0.
pub fn flash_bin(image: &[u8], already_in_bsl: bool, bsl_baud: u32) -> (r: Result<FlashPlan, FlashError>)
    ensures
        match r {
            Ok(p) => plan_refusal(seq![(0u32, image@)]) is None && plan_ok(p, seq![(0u32, image@)], already_in_bsl, bsl_baud),
            Err(e) => plan_refusal(seq![(0u32, image@)]) == Some(e),
        },
{
    let segs = single_segment(image);
    flash_segments(segs.as_slice(), already_in_bsl, bsl_baud)
}

/// Plans flashing a firmware file given its extension and bytes.
pub fn flash_bin_file(extension: &str, data: &[u8], already_in_bsl: bool, bsl_baud: u32) -> (r: Result<FlashPlan, FlashError>)
    ensures
        match spec_firmware_image(to_ascii_lowercase(extension@), data@) {
            Err((k, d)) => r matches Err(FlashError::Firmware(e)) && e.kind == k && e.detail@ == d,
            Ok(segs) => match r {
                Ok(p) => plan_refusal(segs) is None && plan_ok(p, segs, already_in_bsl, bsl_baud),
                Err(e) => plan_refusal(segs) == Some(e),
            },
        },
{
    match firmware_image(extension, data) {
        Err(e) => Err(FlashError::Firmware(e)),
        Ok(segs) => flash_segments(segs.as_slice(), already_in_bsl, bsl_baud),
    }
}

/// The message a firmware read error is reported with.
pub open spec fn firmware_message(kind: FirmwareFault, detail: Seq<char>) -> Seq<char> {
    match kind {
        FirmwareFault::HexLineTooShort => "HEX 行过短: "@ + detail,
        FirmwareFault::HexBadDigit => "HEX 解析: "@ + detail,
        FirmwareFault::HexChecksum => "HEX 校验和错误: "@ + detail,
        FirmwareFault::HexTruncated => "HEX 解析: "@ + detail,
        FirmwareFault::HexNoData => "HEX 无数据段"@,
        FirmwareFault::TiBadAddress => "TI-TXT 地址: "@ + detail,
        FirmwareFault::TiBadByte => "TI-TXT 字节: "@ + detail,
        FirmwareFault::TiNoData => "TI-TXT 无数据段"@,
        FirmwareFault::EmptyImage => "固件为空"@,
        FirmwareFault::NotUtf8 => "stream did not contain valid UTF-8"@,
    }
}

/// The message of a firmware read error.
pub fn firmware_error_message(e: &FirmwareError) -> (r: String)
    ensures
        r@ == firmware_message(e.kind, e.detail@),
{
    let head = match e.kind {
        FirmwareFault::HexLineTooShort => "HEX 行过短: ",
        FirmwareFault::HexBadDigit => "HEX 解析: ",
        FirmwareFault::HexChecksum => "HEX 校验和错误: ",
        FirmwareFault::HexTruncated => "HEX 解析: ",
        FirmwareFault::HexNoData => return String::from_str("HEX 无数据段"),
        FirmwareFault::TiBadAddress => "TI-TXT 地址: ",
        FirmwareFault::TiBadByte => "TI-TXT 字节: ",
        FirmwareFault::TiNoData => return String::from_str("TI-TXT 无数据段"),
        FirmwareFault::EmptyImage => return String::from_str("固件为空"),
        FirmwareFault::NotUtf8 => return String::from_str("stream did not contain valid UTF-8"),
    };
    let mut out = chars_of(head);
    let d = chars_of(e.detail.as_str());
    let mut i: usize = 0;
    let ghost start = out@;
    while i < d.len()
        invariant
            i <= d@.len(),
            out@ == start + d@.take(i as int),
        decreases d.len() - i,
    {
        out.push(d[i]);
        proof {
            assert(d@.take(i + 1) =~= d@.take(i as int).push(d@[i as int]));
        }
        i = i + 1;
    }
    proof {
        assert(d@.take(i as int) =~= d@);
    }
    string_from(out.as_slice())
}

/// The message a refused flash is reported with.
pub open spec fn flash_message(e: FlashError) -> Seq<char> {
    match e {
        FlashError::NoSegments => "无固件数据"@,
        FlashError::EmptyImage => "固件为空"@,
        FlashError::TooLarge(n) => "固件过大 ("@ + crate::text::dec(n as nat) + " B)"@,
        FlashError::Firmware(f) => firmware_message(f.kind, f.detail@),
    }
}

/// The message of a refused flash.
pub fn flash_error_message(e: &FlashError) -> (r: String)
    ensures
        r@ == flash_message(*e),
{
    match e {
        FlashError::NoSegments => String::from_str("无固件数据"),
        FlashError::EmptyImage => String::from_str("固件为空"),
        FlashError::TooLarge(n) => {
            let mut out = chars_of("固件过大 (");
            crate::text::push_decimal_wide(&mut out, *n);
            let tail = chars_of(" B)");
            let mut i: usize = 0;
            let ghost start = out@;
            while i < tail.len()
                invariant
                    i <= tail@.len(),
                    out@ == start + tail@.take(i as int),
                decreases tail.len() - i,
            {
                out.push(tail[i]);
                proof {
                    assert(tail@.take(i + 1) =~= tail@.take(i as int).push(tail@[i as int]));
                }
                i = i + 1;
            }
            proof {
                assert(tail@.take(i as int) =~= tail@);
            }
            string_from(out.as_slice())
        },
        FlashError::Firmware(f) => firmware_error_message(f),
    }
}

/// The ProgramData packet writing `data` at `address`.
pub fn program_data_packet(address: u32, data: &[u8]) -> (packet: Vec<u8>)
    requires
        data@.len() + 12 <= usize::MAX,
    ensures
        packet@ == spec_packet(CMD_PROGRAM_DATA, le32(address) + data@),
{
    let mut payload: Vec<u8> = Vec::new();
    push_le32(&mut payload, address);
    append_bytes(&mut payload, data);
    build_packet(CMD_PROGRAM_DATA, payload.as_slice())
}

/// Fields of the bootloader's device information block.
#[derive(Clone, Copy, Debug, PartialEq, Eq)]
pub struct DeviceInfo {
    pub cmd_interpreter: u16,
    pub build_id: u16,
    pub app_version: u32,
    pub buffer_size: u16,
    pub sram: u32,
}

pub open spec fn u16_at(d: Seq<u8>, i: int) -> u16 {
    (d[i] as int + 256 * d[i + 1] as int) as u16
}

pub open spec fn u32_at(d: Seq<u8>, i: int) -> u32 {
    (d[i] as int + 256 * d[i + 1] as int + 0x1_0000 * d[i + 2] as int + 0x100_0000 * d[i + 3] as int) as u32
}

/// Offset of the response header in a GetDeviceInfo reply: 0 when it starts
/// with a packet header, else 1 (an ACK byte comes first).
pub open spec fn info_offset(raw: Seq<u8>) -> int {
    if raw.len() > 0 && (raw[0] == HDR_DEVICE || raw[0] == HDR_HOST) {
        0
    } else {
        1
    }
}

/// Reads the 24-byte device information block (little-endian fields) that
/// follows the 4-byte response header; `None` when the reply is too short.
pub fn parse_device_info(raw: &[u8]) -> (r: Option<DeviceInfo>)
    ensures
        ({
            let o = info_offset(raw@);
            match r {
                None => raw@.len() < o + 28,
                Some(info) => raw@.len() >= o + 28 && info == (DeviceInfo {
                    cmd_interpreter: u16_at(raw@, o + 4),
                    build_id: u16_at(raw@, o + 6),
                    app_version: u32_at(raw@, o + 8),
                    buffer_size: u16_at(raw@, o + 14),
                    sram: u32_at(raw@, o + 16),
                }),
            }
        }),
{
    let offset: usize = if raw.len() > 0 && (raw[0] == HDR_DEVICE || raw[0] == HDR_HOST) { 0 } else { 1 };
    if raw.len() < offset + 28 {
        return None;
    }
    let b = offset + 4;
    let cmd_interpreter = (raw[b] as u16) + 256 * (raw[b + 1] as u16);
    let build_id = (raw[b + 2] as u16) + 256 * (raw[b + 3] as u16);
    let app_version = (raw[b + 4] as u32) + 256 * (raw[b + 5] as u32) + 0x1_0000 * (raw[b + 6] as u32)
        + 0x100_0000 * (raw[b + 7] as u32);
    let buffer_size = (raw[b + 10] as u16) + 256 * (raw[b + 11] as u16);
    let sram = (raw[b + 12] as u32) + 256 * (raw[b + 13] as u32) + 0x1_0000 * (raw[b + 14] as u32)
        + 0x100_0000 * (raw[b + 15] as u32);
    Some(DeviceInfo { cmd_interpreter, build_id, app_version, buffer_size, sram })
}

/// The usual firmware file names.
pub open spec fn firmware_names() -> Seq<Seq<char>> {
    seq![
        "mspm0_lua_modular.bin"@,
        "mspm0_lua_bytecode.bin"@,
        "mspm0_lua_bytecode.hex"@,
        "firmware.bin"@,
        "firmware.hex"@,
        "out.hex"@,
        "out.bin"@,
    ]
}

/// A usual name tried under `firmware/`, then beside the program.
pub open spec fn name_pair(name: Seq<char>) -> Seq<Seq<char>> {
    seq!["firmware/"@ + name, name]
}

/// The firmware files looked for, relative to the program's folder, most
/// preferred first: the composed image (a modular core with every function
/// slot empty, so that a reflash keeps no module of an older catalog), then
/// each of [`firmware_names`] under `firmware/` and beside the program.
pub open spec fn firmware_candidates_spec() -> Seq<Seq<char>> {
    let n = firmware_names();
    seq!["firmware/build_composed/firmware_core.bin"@] + name_pair(n[0]) + name_pair(n[1]) + name_pair(n[2])
        + name_pair(n[3]) + name_pair(n[4]) + name_pair(n[5]) + name_pair(n[6])
}

pub open spec fn strings_view(v: Seq<String>) -> Seq<Seq<char>> {
    v.map_values(|s: String| s@)
}

fn push_pair(out: &mut Vec<String>, name: &str)
    ensures
        strings_view(final(out)@) == strings_view(old(out)@) + name_pair(name@),
{
    let mut under = chars_of("firmware/");
    let n = chars_of(name);
    let mut i: usize = 0;
    let ghost head = under@;
    while i < n.len()
        invariant
            i <= n@.len(),
            under@ == head + n@.take(i as int),
        decreases n.len() - i,
    {
        under.push(n[i]);
        i = i + 1;
        proof {
            assert(under@ =~= head + n@.take(i as int));
        }
    }
    proof {
        assert(n@.take(n@.len() as int) =~= n@);
    }
    let ghost before = out@;
    out.push(string_from(under.as_slice()));
    out.push(String::from_str(name));
    proof {
        assert(strings_view(out@) =~= strings_view(before) + name_pair(name@));
    }
}

/// The firmware files looked for beside the program (see
/// [`firmware_candidates_spec`]).
pub fn default_firmware_candidates() -> (r: Vec<String>)
    ensures
        strings_view(r@) == firmware_candidates_spec(),
{
    let mut out: Vec<String> = Vec::new();
    out.push(String::from_str("firmware/build_composed/firmware_core.bin"));
    proof {
        assert(strings_view(out@) =~= seq!["firmware/build_composed/firmware_core.bin"@]);
    }
    push_pair(&mut out, "mspm0_lua_modular.bin");
    push_pair(&mut out, "mspm0_lua_bytecode.bin");
    push_pair(&mut out, "mspm0_lua_bytecode.hex");
    push_pair(&mut out, "firmware.bin");
    push_pair(&mut out, "firmware.hex");
    push_pair(&mut out, "out.hex");
    push_pair(&mut out, "out.bin");
    out
}

/// An extension (any letter case) of a firmware file: `bin`, `hex` or `txt`.
pub open spec fn firmware_extension(ext: Seq<char>) -> bool {
    let e = to_ascii_lowercase(ext);
    e == "bin"@ || e == "hex"@ || e == "txt"@
}

/// Whether a file with extension `ext` may hold firmware (see
/// [`firmware_extension`]).
pub fn is_firmware_extension(ext: &str) -> (r: bool)
    ensures
        r == firmware_extension(ext@),
{
    let v = chars_of(ext);
    let e = ascii_lower(v.as_slice());
    let bin = chars_of("bin");
    let hex = chars_of("hex");
    let txt = chars_of("txt");
    crate::fontpack::chars_eq(e.as_slice(), bin.as_slice()) || crate::fontpack::chars_eq(e.as_slice(), hex.as_slice())
        || crate::fontpack::chars_eq(e.as_slice(), txt.as_slice())
}

/// An upper-case hexadecimal digit.
pub open spec fn hex_upper(d: nat) -> char {
    if d < 10 {
        (('0' as u32) + d) as char
    } else {
        (('A' as u32) + d - 10) as char
    }
}

/// `v` in `w` upper-case hexadecimal digits (`{:0w X}` for `v < 16^w`).
pub open spec fn hex_width(v: nat, w: nat) -> Seq<char>
    decreases w,
{
    if w == 0 {
        Seq::empty()
    } else {
        hex_width(v / 16, (w - 1) as nat).push(hex_upper(v % 16))
    }
}

fn push_hex_width(out: &mut Vec<char>, v: u32, w: usize)
    ensures
        final(out)@ == old(out)@ + hex_width(v as nat, w as nat),
    decreases w,
{
    if w > 0 {
        push_hex_width(out, v / 16, w - 1);
        let d = v % 16;
        let c = if d < 10 {
            (('0' as u8) + (d as u8)) as char
        } else {
            (('A' as u8) + (d as u8) - 10) as char
        };
        out.push(c);
        proof {
            assert(out@ =~= old(out)@ + hex_width(v as nat, w as nat));
        }
    }
}

/// A segment's address range as `0xSTART-0xEND` (end = address plus
/// length, wrapping at 2^32).
pub open spec fn range_text(seg: (u32, Seq<u8>)) -> Seq<char> {
    "0x"@ + hex_width(seg.0 as nat, 8) + "-0x"@ + hex_width(((seg.0 + seg.1.len()) % 0x1_0000_0000) as nat, 8)
}

/// The ranges of `segs`, joined by `", "`.
pub open spec fn ranges_text(segs: Seq<(u32, Seq<u8>)>) -> Seq<char>
    decreases segs.len(),
{
    if segs.len() == 0 {
        Seq::empty()
    } else if segs.len() == 1 {
        range_text(segs[0])
    } else {
        ranges_text(segs.drop_last()) + ", "@ + range_text(segs.last())
    }
}

/// The first progress message of flashing: `固件 NAME · TOTAL B · N 段 ·`
/// and the segments' address ranges.
pub open spec fn flash_summary_text(name: Seq<char>, total: nat, segs: Seq<(u32, Seq<u8>)>) -> Seq<char> {
    "固件 "@ + name + " · "@ + crate::text::dec(total) + " B · "@ + crate::text::dec(segs.len()) + " 段 · "@ + ranges_text(segs)
}

/// The first progress message for flashing the file named `name` by `plan`
/// (see [`flash_summary_text`]).
pub fn flash_summary(name: &str, plan: &FlashPlan) -> (r: String)
    ensures
        r@ == flash_summary_text(name@, plan.total as nat, segs_view(plan.segments@)),
{
    let ghost sv = segs_view(plan.segments@);
    let mut out = chars_of("固件 ");
    crate::text::append_str(&mut out, name);
    crate::text::append_str(&mut out, " · ");
    crate::text::push_decimal(&mut out, plan.total as u64);
    crate::text::append_str(&mut out, " B · ");
    crate::text::push_decimal(&mut out, plan.segments.len() as u64);
    crate::text::append_str(&mut out, " 段 · ");
    let ghost head = out@;
    let mut k: usize = 0;
    proof {
        assert(sv.take(0) =~= Seq::<(u32, Seq<u8>)>::empty());
        assert(head + ranges_text(sv.take(0)) =~= head);
    }
    while k < plan.segments.len()
        invariant
            k <= plan.segments@.len(),
            sv == segs_view(plan.segments@),
            out@ == head + ranges_text(sv.take(k as int)),
        decreases plan.segments.len() - k,
    {
        let seg = &plan.segments[k];
        proof {
            assert(sv.take(k + 1).drop_last() =~= sv.take(k as int));
            assert(sv.take(k + 1).last() == sv[k as int]);
            assert(sv[k as int] == seg_view(*seg));
            if k == 0 {
                assert(sv.take(1) =~= seq![sv[0]]);
            }
        }
        let ghost before = out@;
        if k > 0 {
            crate::text::append_str(&mut out, ", ");
        }
        crate::text::append_str(&mut out, "0x");
        push_hex_width(&mut out, seg.address, 8);
        crate::text::append_str(&mut out, "-0x");
        let end = seg.address.wrapping_add(((seg.data.len() as u64) % 0x1_0000_0000u64) as u32);
        proof {
            assert(end as nat == ((seg.address + seg.data@.len()) % 0x1_0000_0000) as nat);
        }
        push_hex_width(&mut out, end, 8);
        k = k + 1;
        proof {
            assert(out@ =~= head + ranges_text(sv.take(k as int)));
        }
    }
    proof {
        assert(sv.take(k as int) =~= sv);
    }
    string_from(out.as_slice())
}

/// Starts flashing the firmware file named `name`: the plan (exactly as
/// [`flash_bin_file`] makes it, refusals included) and, when there is one,
/// the first progress message (see [`flash_summary_text`]). A refused file
/// gives no message.
pub fn flash_start(name: &str, extension: &str, data: &[u8], already_in_bsl: bool, bsl_baud: u32) -> (r: Result<
    (FlashPlan, String),
    FlashError,
>)
    ensures
        match spec_firmware_image(to_ascii_lowercase(extension@), data@) {
            Err((k, d)) => r matches Err(FlashError::Firmware(e)) && e.kind == k && e.detail@ == d,
            Ok(segs) => match r {
                Ok((p, m)) => plan_refusal(segs) is None && plan_ok(p, segs, already_in_bsl, bsl_baud) && m@
                    == flash_summary_text(name@, p.total as nat, segs),
                Err(e) => plan_refusal(segs) == Some(e),
            },
        },
{
    match flash_bin_file(extension, data, already_in_bsl, bsl_baud) {
        Err(e) => Err(e),
        Ok(plan) => {
            let m = flash_summary(name, &plan);
            Ok((plan, m))
        },
    }
}

// ─── retrying bootloader exchanges ──────────────────────────────────────

/// Connection exchanges tried before flashing gives up.
pub const CONNECT_TRIES: u32 = 10;

/// Pause after a failed connection exchange, in milliseconds.
pub const CONNECT_RETRY_MS: u64 = 300;

/// ProgramData exchanges tried for one chunk before flashing gives up.
pub const PROGRAM_TRIES: u32 = 4;

/// What follows one attempt of a repeated bootloader exchange.
#[derive(Clone, Copy, Debug, PartialEq, Eq, Structural)]
pub enum RetryStep {
    /// The exchange succeeded: go on.
    Proceed,
    /// It failed: clear the port's input, pause `wait_ms` milliseconds and
    /// make attempt `next`.
    Retry { wait_ms: u64, next: u32 },
    /// It failed the last allowed time: clear the port's input, pause
    /// `wait_ms` milliseconds and give up.
    GiveUp { wait_ms: u64 },
}

/// What follows attempt `attempt` (counted from 1) of an exchange tried at
/// most `tries` times, pausing `wait_ms` after a failure.
pub open spec fn retry_after(attempt: u32, ok: bool, tries: u32, wait_ms: u64) -> RetryStep {
    if ok {
        RetryStep::Proceed
    } else if attempt < tries {
        RetryStep::Retry { wait_ms, next: (attempt + 1) as u32 }
    } else {
        RetryStep::GiveUp { wait_ms }
    }
}

/// The pause after failed ProgramData attempt `attempt`: 80 ms, and 40 ms
/// more for each attempt made.
pub open spec fn program_wait_ms(attempt: u32) -> u64 {
    (80 + 40 * attempt) as u64
}

/// What follows connection attempt `attempt`, which succeeded when `ok`.
pub fn connect_step(attempt: u32, ok: bool) -> (r: RetryStep)
    ensures
        r == retry_after(attempt, ok, CONNECT_TRIES, CONNECT_RETRY_MS),
{
    if ok {
        RetryStep::Proceed
    } else if attempt < CONNECT_TRIES {
        RetryStep::Retry { wait_ms: CONNECT_RETRY_MS, next: attempt + 1 }
    } else {
        RetryStep::GiveUp { wait_ms: CONNECT_RETRY_MS }
    }
}

/// What follows ProgramData attempt `attempt` for a chunk, which succeeded
/// when `ok`; the pause grows with each attempt (see [`program_wait_ms`]).
pub fn program_step(attempt: u32, ok: bool) -> (r: RetryStep)
    ensures
        r == retry_after(attempt, ok, PROGRAM_TRIES, program_wait_ms(attempt)),
{
    let wait_ms = 80 + 40 * (attempt as u64);
    if ok {
        RetryStep::Proceed
    } else if attempt < PROGRAM_TRIES {
        RetryStep::Retry { wait_ms, next: attempt + 1 }
    } else {
        RetryStep::GiveUp { wait_ms }
    }
}

/// A repeated exchange makes at most `tries` attempts: a success goes on;
/// a failure asks for another attempt only below `tries`, and then for the
/// next one; a failure at `tries` or beyond gives up.
pub proof fn law_retries_bounded(attempt: u32, ok: bool, tries: u32, wait_ms: u64)
    ensures
        ok ==> retry_after(attempt, ok, tries, wait_ms) == RetryStep::Proceed,
        retry_after(attempt, ok, tries, wait_ms) is Retry ==> retry_after(attempt, ok, tries, wait_ms)->next
            == attempt + 1 && retry_after(attempt, ok, tries, wait_ms)->next <= tries,
        !ok && attempt >= tries ==> retry_after(attempt, ok, tries, wait_ms) == (RetryStep::GiveUp { wait_ms }),
{
}

/// The progress message before connection attempt `attempt`.
pub open spec fn connect_progress_text(attempt: u32) -> Seq<char> {
    "连接中 "@ + crate::text::dec(attempt as nat) + "/"@ + crate::text::dec(CONNECT_TRIES as nat) + "…"@
}

/// The progress message before connection attempt `attempt` (see
/// [`connect_progress_text`]).
pub fn connect_progress(attempt: u32) -> (r: String)
    ensures
        r@ == connect_progress_text(attempt),
{
    let mut out = chars_of("连接中 ");
    crate::text::push_decimal(&mut out, attempt as u64);
    crate::text::append_str(&mut out, "/");
    crate::text::push_decimal(&mut out, CONNECT_TRIES as u64);
    crate::text::append_str(&mut out, "…");
    string_from(out.as_slice())
}

/// The refusal when no connection attempt succeeded: the last error and
/// what to check, with the baud rate used.
pub open spec fn connect_failure_text(last: Seq<char>, baud: u32) -> Seq<char> {
    "BSL 连接失败（"@ + last + "）。请确认已进入 BSL，CH340 接 PA10/PA11，波特率 "@ + crate::text::dec(baud as nat) + "。"@
}

/// The refusal when no connection attempt succeeded (see
/// [`connect_failure_text`]).
pub fn connect_failure(last: &str, baud: u32) -> (r: String)
    ensures
        r@ == connect_failure_text(last@, baud),
{
    let mut out = chars_of("BSL 连接失败（");
    crate::text::append_str(&mut out, last);
    crate::text::append_str(&mut out, "）。请确认已进入 BSL，CH340 接 PA10/PA11，波特率 ");
    crate::text::push_decimal(&mut out, baud as u64);
    crate::text::append_str(&mut out, "。");
    string_from(out.as_slice())
}

/// The refusal when every ProgramData attempt for a chunk failed: the last
/// error and the number of attempts.
pub open spec fn program_failure_text(last: Seq<char>) -> Seq<char> {
    last + " (已重试 "@ + crate::text::dec(PROGRAM_TRIES as nat) + " 次)"@
}

/// The refusal when every ProgramData attempt for a chunk failed (see
/// [`program_failure_text`]).
pub fn program_failure(last: &str) -> (r: String)
    ensures
        r@ == program_failure_text(last@),
{
    let mut out = chars_of(last);
    crate::text::append_str(&mut out, " (已重试 ");
    crate::text::push_decimal(&mut out, PROGRAM_TRIES as u64);
    crate::text::append_str(&mut out, " 次)");
    string_from(out.as_slice())
}

/// Flashes the firmware file named `name` (given by its extension and
/// bytes): a file that cannot be read as firmware, or whose image is
/// refused, gives the refusal's message and neither reports progress nor
/// runs anything; otherwise `on_progress` first gets the summary (see
/// [`flash_summary_text`]) and then `run` carries out the plan that
/// [`flash_bin_file`] makes, with `on_progress` for its own reports, and
/// its answer is the result.
pub fn flash_file_with<P: FnMut(&str), R: FnOnce(FlashPlan, P) -> Result<(), String>>(
    name: &str,
    extension: &str,
    data: &[u8],
    already_in_bsl: bool,
    bsl_baud: u32,
    on_progress: P,
    run: R,
) -> (r: Result<(), String>)
    requires
        forall|s: &str| on_progress.requires((s,)),
        forall|plan: FlashPlan, p: P| run.requires((plan, p)),
    ensures
        match spec_firmware_image(to_ascii_lowercase(extension@), data@) {
            Err((k, d)) => r matches Err(m) && m@ == firmware_message(k, d),
            Ok(segs) => match plan_refusal(segs) {
                Some(e) => r matches Err(m) && m@ == flash_message(e),
                None => exists|plan: FlashPlan, s: &str|
                    plan_ok(plan, segs, already_in_bsl, bsl_baud) && s@ == flash_summary_text(name@, plan.total as nat, segs)
                        && #[trigger] on_progress.ensures((s,), ()) && #[trigger] run.ensures((plan, on_progress), r),
            },
        },
{
    let mut on_progress = on_progress;
    match flash_start(name, extension, data, already_in_bsl, bsl_baud) {
        Err(e) => Err(flash_error_message(&e)),
        Ok((plan, summary)) => {
            let s = summary.as_str();
            on_progress(s);
            run(plan, on_progress)
        },
    }
}

} // verus!
