//! Reading and writing pcap savefiles, in the classic format.
//!
//! Layout: a 24-byte global header followed by a series of packet records.
//! A record is a 16-byte header (timestamp seconds, timestamp micro- or
//! nanoseconds, captured length, original length), then the frame bytes.
//!
//! The reader works on the contents of a file and the writer hands out the
//! bytes for one; opening files is up to the caller.

use vstd::prelude::*;

use crate::wire::{
    be16, be32, byte_range, get_be16, get_be32, get_le16, get_le32, law_little_endian, le16,
    le16_bytes, le32, le32_bytes, push_bytes, push_le16, push_le32,
};

verus! {

/// Magic number for the classic, little-endian, microsecond pcap file.
pub const PCAP_MAGIC_NUMBER: u32 = 0xa1b2_c3d4;
/// Magic number for the little-endian, nanosecond pcap file.
pub const PCAP_MAGIC_NUMBER_NANO: u32 = 0xa1b2_3c4d;
/// The microsecond magic number of a big-endian file, read as little-endian.
pub const PCAP_MAGIC_NUMBER_BE: u32 = 0xd4c3_b2a1;
/// The nanosecond magic number of a big-endian file, read as little-endian.
pub const PCAP_MAGIC_NUMBER_NANO_BE: u32 = 0x4d3c_b2a1;

/// The pcap global header.
#[derive(Clone, Copy, Debug, PartialEq, Eq, Structural)]
pub struct PcapFileHeader {
    pub magic: u32,
    pub version_major: u16,
    pub version_minor: u16,
    pub thiszone: i32,
    pub sigfigs: u32,
    pub snaplen: u32,
    pub linktype: u32,
}

impl PcapFileHeader {
    /// The header of a new file.
    pub open spec fn fresh(snaplen: u32, linktype: u32) -> PcapFileHeader {
        PcapFileHeader {
            magic: PCAP_MAGIC_NUMBER,
            version_major: 2,
            version_minor: 4,
            thiszone: 0,
            sigfigs: 0,
            snaplen,
            linktype,
        }
    }

    pub fn new(snaplen: u32, linktype: u32) -> (r: Self)
        ensures
            r == PcapFileHeader::fresh(snaplen, linktype),
    {
        PcapFileHeader {
            magic: PCAP_MAGIC_NUMBER,
            version_major: 2,
            version_minor: 4,
            thiszone: 0,
            sigfigs: 0,
            snaplen,
            linktype,
        }
    }

    /// Whether timestamps have nanosecond precision.
    pub open spec fn nano(self) -> bool {
        self.magic == PCAP_MAGIC_NUMBER_NANO || self.magic == PCAP_MAGIC_NUMBER_NANO_BE
    }

    /// Whether the fields are big-endian.
    pub open spec fn swapped(self) -> bool {
        is_swapped(self.magic)
    }

    /// Whether this header uses nanosecond precision timestamps.
    pub fn is_nano(&self) -> (r: bool)
        ensures
            r == self.nano(),
    {
        self.magic == PCAP_MAGIC_NUMBER_NANO || self.magic == PCAP_MAGIC_NUMBER_NANO_BE
    }

    /// Whether the fields must be byte-swapped (big-endian capture).
    pub fn needs_swap(&self) -> (r: bool)
        ensures
            r == self.swapped(),
    {
        self.magic == PCAP_MAGIC_NUMBER_BE || self.magic == PCAP_MAGIC_NUMBER_NANO_BE
    }
}

/// A single captured packet record.
#[derive(Clone, Debug, PartialEq, Eq)]
pub struct PcapPacket {
    /// Timestamp seconds.
    pub ts_sec: u32,
    /// Timestamp sub-seconds (microseconds or nanoseconds per header).
    pub ts_frac: u32,
    /// Captured length (bytes stored).
    pub caplen: u32,
    /// Original length on the wire.
    pub origlen: u32,
    /// Packet direction / type hint (see [`crate::raw`]). Zero on captures
    /// (offline savefiles) that do not carry this information.
    pub pkttype: u16,
    /// Frame data.
    pub data: Vec<u8>,
}

/// A packet record with its frame as a byte sequence.
#[verifier::ext_equal]
pub struct Packet {
    pub ts_sec: u32,
    pub ts_frac: u32,
    pub caplen: u32,
    pub origlen: u32,
    pub pkttype: u16,
    pub data: Seq<u8>,
}

impl View for PcapPacket {
    type V = Packet;

    open spec fn view(&self) -> Packet {
        Packet {
            ts_sec: self.ts_sec,
            ts_frac: self.ts_frac,
            caplen: self.caplen,
            origlen: self.origlen,
            pkttype: self.pkttype,
            data: self.data@,
        }
    }
}

/// Why a savefile cannot be read.
#[derive(Clone, Copy, Debug, PartialEq, Eq, Structural)]
pub enum SavefileError {
    /// The file ends inside the global header, a record header or a frame.
    Truncated,
    /// The file does not start with a pcap magic number.
    BadMagic,
    /// A record claims an impossible length.
    TooLarge,
}

impl SavefileError {
    /// The error in words.
    pub open spec fn text(self) -> Seq<char> {
        match self {
            SavefileError::Truncated => "failed to fill whole buffer"@,
            SavefileError::BadMagic => "not a pcap file (bad magic)"@,
            SavefileError::TooLarge => "corrupt controller (caplen too large)"@,
        }
    }

    pub fn message(&self) -> (r: &'static str)
        ensures
            r@ == self.text(),
    {
        match self {
            SavefileError::Truncated => "failed to fill whole buffer",
            SavefileError::BadMagic => "not a pcap file (bad magic)",
            SavefileError::TooLarge => "corrupt controller (caplen too large)",
        }
    }
}

// ---------------------------------------------------------------------------
// Reading

/// Whether a magic number is that of a big-endian file.
pub open spec fn is_swapped(magic: u32) -> bool {
    magic == PCAP_MAGIC_NUMBER_BE || magic == PCAP_MAGIC_NUMBER_NANO_BE
}

/// The 16-bit integer at `at`, in the byte order of the file.
pub open spec fn field16(swap: bool, s: Seq<u8>, at: int) -> int {
    if swap {
        be16(s, at)
    } else {
        le16(s, at)
    }
}

/// The 32-bit integer at `at`, in the byte order of the file.
pub open spec fn field32(swap: bool, s: Seq<u8>, at: int) -> int {
    if swap {
        be32(s, at)
    } else {
        le32(s, at)
    }
}

/// The global header at the start of a file, or why there is none.
pub open spec fn file_header(s: Seq<u8>) -> Result<PcapFileHeader, SavefileError> {
    let magic = le32(s, 0) as u32;
    let swap = is_swapped(magic);
    if s.len() < 24 {
        Err(SavefileError::Truncated)
    } else if magic == PCAP_MAGIC_NUMBER || magic == PCAP_MAGIC_NUMBER_NANO || swap {
        Ok(
            PcapFileHeader {
                magic,
                version_major: field16(swap, s, 4) as u16,
                version_minor: field16(swap, s, 6) as u16,
                thiszone: field32(swap, s, 8) as u32 as i32,
                sigfigs: field32(swap, s, 12) as u32,
                snaplen: field32(swap, s, 16) as u32,
                linktype: field32(swap, s, 20) as u32,
            },
        )
    } else {
        Err(SavefileError::BadMagic)
    }
}

/// Whether a record with the captured length `caplen` cannot be right.
pub open spec fn too_large(h: PcapFileHeader, caplen: int) -> bool {
    caplen > h.snaplen && !h.nano() && caplen > 0x100_0000
}

/// The first record of `rest`, and what is left behind it. There is none where
/// nothing is left. A record header or a frame that is cut short uses up the
/// rest; a record with an impossible length uses up its header.
pub open spec fn next_record(h: PcapFileHeader, rest: Seq<u8>) -> (
    Result<Option<Packet>, SavefileError>,
    Seq<u8>,
) {
    let swap = h.swapped();
    let caplen = field32(swap, rest, 8);
    if rest.len() == 0 {
        (Ok(None), Seq::empty())
    } else if rest.len() < 16 {
        (Err(SavefileError::Truncated), Seq::empty())
    } else if too_large(h, caplen) {
        (Err(SavefileError::TooLarge), rest.skip(16))
    } else if rest.len() - 16 < caplen {
        (Err(SavefileError::Truncated), Seq::empty())
    } else {
        (
            Ok(
                Some(
                    Packet {
                        ts_sec: field32(swap, rest, 0) as u32,
                        ts_frac: field32(swap, rest, 4) as u32,
                        caplen: caplen as u32,
                        origlen: field32(swap, rest, 12) as u32,
                        pkttype: 0,
                        data: rest.subrange(16, 16 + caplen),
                    },
                ),
            ),
            rest.skip(16 + caplen),
        )
    }
}

/// The records of a file up to its end or the first bad one.
pub open spec fn records(h: PcapFileHeader, rest: Seq<u8>) -> Seq<Packet>
    decreases rest.len(),
{
    match next_record(h, rest).0 {
        Ok(Some(p)) if next_record(h, rest).1.len() < rest.len() => seq![p] + records(
            h,
            next_record(h, rest).1,
        ),
        _ => Seq::empty(),
    }
}

/// Read a 16-bit integer in the byte order of the file.
fn get16(swap: bool, s: &[u8], at: usize) -> (v: u16)
    requires
        at + 2 <= s@.len(),
    ensures
        v == field16(swap, s@, at as int),
{
    if swap {
        get_be16(s, at)
    } else {
        get_le16(s, at)
    }
}

/// Read a 32-bit integer in the byte order of the file.
fn get32(swap: bool, s: &[u8], at: usize) -> (v: u32)
    requires
        at + 4 <= s@.len(),
    ensures
        v == field32(swap, s@, at as int),
{
    if swap {
        get_be32(s, at)
    } else {
        get_le32(s, at)
    }
}

/// A reader over a pcap savefile.
pub struct SavefileReader {
    header: PcapFileHeader,
    data: Vec<u8>,
    pos: usize,
}

impl SavefileReader {
    /// The global header.
    pub closed spec fn head(self) -> PcapFileHeader {
        self.header
    }

    /// The bytes not yet read.
    pub closed spec fn rest(self) -> Seq<u8> {
        self.data@.skip(self.pos as int)
    }

    /// The position is inside the file, or at its end.
    #[verifier::type_invariant]
    spec fn well_formed(self) -> bool {
        self.pos <= self.data@.len()
    }

    /// Start reading the contents of a pcap file.
    pub fn open(data: Vec<u8>) -> (r: Result<SavefileReader, SavefileError>)
        ensures
            match r {
                Ok(reader) => file_header(data@) == Ok::<PcapFileHeader, SavefileError>(
                    reader.head(),
                ) && reader.rest() == data@.skip(24),
                Err(e) => file_header(data@) == Err::<PcapFileHeader, SavefileError>(e),
            },
    {
        if data.len() < 24 {
            return Err(SavefileError::Truncated);
        }
        let raw: &[u8] = data.as_slice();
        let magic: u32 = get_le32(raw, 0);
        let swap: bool = magic == PCAP_MAGIC_NUMBER_BE || magic == PCAP_MAGIC_NUMBER_NANO_BE;
        if !(magic == PCAP_MAGIC_NUMBER || magic == PCAP_MAGIC_NUMBER_NANO || swap) {
            return Err(SavefileError::BadMagic);
        }
        let header: PcapFileHeader = PcapFileHeader {
            magic,
            version_major: get16(swap, raw, 4),
            version_minor: get16(swap, raw, 6),
            thiszone: get32(swap, raw, 8) as i32,
            sigfigs: get32(swap, raw, 12),
            snaplen: get32(swap, raw, 16),
            linktype: get32(swap, raw, 20),
        };
        Ok(SavefileReader { header, data, pos: 24 })
    }

    pub fn header(&self) -> (r: &PcapFileHeader)
        ensures
            *r == self.head(),
    {
        &self.header
    }

    /// How many bytes are not yet read.
    pub fn remaining(&self) -> (r: usize)
        ensures
            r == self.rest().len(),
    {
        proof {
            use_type_invariant(self);
        }
        self.data.len() - self.pos
    }

    /// Read the next packet record, if any. `Ok(None)` at the clean end of the
    /// file, where nothing is left of it; a record that is cut short is an
    /// error.
    pub fn next_packet(&mut self) -> (r: Result<Option<PcapPacket>, SavefileError>)
        ensures
            final(self).head() == old(self).head(),
            ({
                let (record, rest) = next_record(old(self).head(), old(self).rest());
                &&& final(self).rest() == rest
                &&& match r {
                    Ok(Some(p)) => record == Ok::<Option<Packet>, SavefileError>(Some(p@)),
                    Ok(None) => record == Ok::<Option<Packet>, SavefileError>(None),
                    Err(e) => record == Err::<Option<Packet>, SavefileError>(e),
                }
            }),
    {
        proof {
            use_type_invariant(&*self);
        }
        let ghost rest = self.rest();
        let n: usize = self.data.len();
        let at: usize = self.pos;
        if n == at {
            assert(self.rest() =~= Seq::<u8>::empty());
            return Ok(None);
        }
        if n - at < 16 {
            self.pos = n;
            assert(self.rest() =~= Seq::<u8>::empty());
            return Err(SavefileError::Truncated);
        }
        let swap: bool = self.header.needs_swap();
        let raw: &[u8] = self.data.as_slice();
        let ts_sec: u32 = get32(swap, raw, at);
        let ts_frac: u32 = get32(swap, raw, at + 4);
        let caplen: u32 = get32(swap, raw, at + 8);
        let origlen: u32 = get32(swap, raw, at + 12);
        assert(ts_sec == field32(swap, rest, 0));
        assert(ts_frac == field32(swap, rest, 4));
        assert(caplen == field32(swap, rest, 8));
        assert(origlen == field32(swap, rest, 12));
        if caplen > self.header.snaplen && !self.header.is_nano() && caplen > 0x100_0000 {
            self.pos = at + 16;
            assert(self.rest() =~= rest.skip(16));
            return Err(SavefileError::TooLarge);
        }
        if n - at - 16 < caplen as usize {
            self.pos = n;
            assert(self.rest() =~= Seq::<u8>::empty());
            return Err(SavefileError::Truncated);
        }
        let end: usize = at + 16 + caplen as usize;
        let data: Vec<u8> = byte_range(raw, at + 16, end);
        assert(data@ =~= rest.subrange(16, 16 + caplen));
        self.pos = end;
        assert(self.rest() =~= rest.skip(16 + caplen));
        Ok(Some(PcapPacket { ts_sec, ts_frac, caplen, origlen, pkttype: 0, data }))
    }
}

// ---------------------------------------------------------------------------
// Writing

/// The bytes of a global header.
pub open spec fn header_bytes(h: PcapFileHeader) -> Seq<u8> {
    le32_bytes(h.magic) + le16_bytes(h.version_major) + le16_bytes(h.version_minor) + le32_bytes(
        h.thiszone as u32,
    ) + le32_bytes(h.sigfigs) + le32_bytes(h.snaplen) + le32_bytes(h.linktype)
}

/// How much of a frame is stored.
pub open spec fn stored_len(snaplen: u32, data: Seq<u8>) -> int {
    if data.len() <= snaplen {
        data.len() as int
    } else {
        snaplen as int
    }
}

/// The bytes of a packet record.
pub open spec fn record_bytes(snaplen: u32, ts_sec: u32, ts_frac: u32, data: Seq<u8>) -> Seq<u8> {
    le32_bytes(ts_sec) + le32_bytes(ts_frac) + le32_bytes(stored_len(snaplen, data) as u32)
        + le32_bytes(data.len() as u32) + data.take(stored_len(snaplen, data))
}

/// A writer of pcap savefiles. It gathers bytes until they are taken with
/// [`SavefileWriter::flush`].
pub struct SavefileWriter {
    header: PcapFileHeader,
    buffer: Vec<u8>,
}

impl SavefileWriter {
    /// The global header.
    pub closed spec fn head(self) -> PcapFileHeader {
        self.header
    }

    /// The bytes written and not yet taken.
    pub closed spec fn pending(self) -> Seq<u8> {
        self.buffer@
    }

    /// Start a pcap file.
    pub fn create(snaplen: u32, linktype: u32) -> (r: SavefileWriter)
        ensures
            r.head() == PcapFileHeader::fresh(snaplen, linktype),
            r.pending() == header_bytes(r.head()),
    {
        let header: PcapFileHeader = PcapFileHeader::new(snaplen, linktype);
        let mut buffer: Vec<u8> = Vec::new();
        push_le32(&mut buffer, header.magic);
        push_le16(&mut buffer, header.version_major);
        push_le16(&mut buffer, header.version_minor);
        push_le32(&mut buffer, header.thiszone as u32);
        push_le32(&mut buffer, header.sigfigs);
        push_le32(&mut buffer, header.snaplen);
        push_le32(&mut buffer, header.linktype);
        assert(buffer@ =~= header_bytes(header));
        SavefileWriter { header, buffer }
    }

    pub fn header(&self) -> (r: &PcapFileHeader)
        ensures
            *r == self.head(),
    {
        &self.header
    }

    /// Write a packet record. The frame is cut off at the snapshot length.
    pub fn write_packet(&mut self, ts_sec: u32, ts_frac: u32, data: &[u8])
        ensures
            final(self).head() == old(self).head(),
            final(self).pending() == old(self).pending() + record_bytes(
                old(self).head().snaplen,
                ts_sec,
                ts_frac,
                data@,
            ),
    {
        let snaplen: u32 = self.header.snaplen;
        let n: usize = data.len();
        let stored: usize = if n as u64 <= snaplen as u64 {
            n
        } else {
            snaplen as usize
        };
        let ghost before = self.buffer@;
        push_le32(&mut self.buffer, ts_sec);
        push_le32(&mut self.buffer, ts_frac);
        push_le32(&mut self.buffer, stored as u32);
        push_le32(&mut self.buffer, n as u32);
        let frame: Vec<u8> = byte_range(data, 0, stored);
        assert(frame@ =~= data@.take(stored as int));
        push_bytes(&mut self.buffer, frame.as_slice());
        assert(self.buffer@ =~= before + record_bytes(snaplen, ts_sec, ts_frac, data@));
    }

    /// Take the bytes written since the last flush, to append them to the
    /// file.
    pub fn flush(&mut self) -> (r: Vec<u8>)
        ensures
            r@ == old(self).pending(),
            final(self).head() == old(self).head(),
            final(self).pending() == Seq::<u8>::empty(),
    {
        let mut out: Vec<u8> = Vec::new();
        std::mem::swap(&mut out, &mut self.buffer);
        assert(self.buffer@ =~= Seq::<u8>::empty());
        out
    }
}

// ---------------------------------------------------------------------------
// Reading what was written

/// A packet handed to the writer.
#[verifier::ext_equal]
pub struct Frame {
    pub ts_sec: u32,
    pub ts_frac: u32,
    pub data: Seq<u8>,
}

/// The records of several frames, one behind the other.
pub open spec fn records_bytes(snaplen: u32, frames: Seq<Frame>) -> Seq<u8>
    decreases frames.len(),
{
    if frames.len() == 0 {
        Seq::empty()
    } else {
        record_bytes(snaplen, frames[0].ts_sec, frames[0].ts_frac, frames[0].data) + records_bytes(
            snaplen,
            frames.skip(1),
        )
    }
}

/// What is kept of a frame: its bytes up to the snapshot length.
pub open spec fn kept(snaplen: u32, f: Frame) -> Packet {
    Packet {
        ts_sec: f.ts_sec,
        ts_frac: f.ts_frac,
        caplen: stored_len(snaplen, f.data) as u32,
        origlen: f.data.len() as u32,
        pkttype: 0,
        data: f.data.take(stored_len(snaplen, f.data)),
    }
}

/// A 32-bit integer reads back as it was written.
proof fn lemma_le32(s: Seq<u8>, at: int, v: u32)
    requires
        0 <= at,
        at + 4 <= s.len(),
        s.subrange(at, at + 4) == le32_bytes(v),
    ensures
        le32(s, at) == v,
{
    let b = s.subrange(at, at + 4);
    assert(b[0] == s[at] && b[1] == s[at + 1] && b[2] == s[at + 2] && b[3] == s[at + 3]);
    assert(v == (v % 0x100) + (v / 0x100 % 0x100) * 0x100 + (v / 0x1_0000 % 0x100) * 0x1_0000 + (v
        / 0x100_0000) * 0x100_0000);
}

/// A 16-bit integer reads back as it was written.
proof fn lemma_le16(s: Seq<u8>, at: int, v: u16)
    requires
        0 <= at,
        at + 2 <= s.len(),
        s.subrange(at, at + 2) == le16_bytes(v),
    ensures
        le16(s, at) == v,
{
    let b = s.subrange(at, at + 2);
    assert(b[0] == s[at] && b[1] == s[at + 1]);
}

/// A 32-bit integer reads back from where it was written.
proof fn lemma_le32_at(before: Seq<u8>, v: u32, behind: Seq<u8>)
    ensures
        le32(before + le32_bytes(v) + behind, before.len() as int) == v,
{
    let s = before + le32_bytes(v) + behind;
    let at = before.len() as int;
    assert(s.subrange(at, at + 4) =~= le32_bytes(v));
    lemma_le32(s, at, v);
}

/// A 16-bit integer reads back from where it was written.
proof fn lemma_le16_at(before: Seq<u8>, v: u16, behind: Seq<u8>)
    ensures
        le16(before + le16_bytes(v) + behind, before.len() as int) == v,
{
    let s = before + le16_bytes(v) + behind;
    let at = before.len() as int;
    assert(s.subrange(at, at + 2) =~= le16_bytes(v));
    lemma_le16(s, at, v);
}

/// The first three fields of a written header read back as they were.
proof fn lemma_header_start(h: PcapFileHeader, rest: Seq<u8>)
    ensures
        le32(header_bytes(h) + rest, 0) == h.magic,
        le16(header_bytes(h) + rest, 4) == h.version_major,
        le16(header_bytes(h) + rest, 6) == h.version_minor,
{
    let s = header_bytes(h) + rest;
    let a = le32_bytes(h.magic);
    let b = a + le16_bytes(h.version_major);
    let c = b + le16_bytes(h.version_minor);
    assert(s =~= Seq::<u8>::empty() + a + s.skip(4));
    lemma_le32_at(Seq::empty(), h.magic, s.skip(4));
    assert(s =~= b + s.skip(6));
    lemma_le16_at(a, h.version_major, s.skip(6));
    assert(s =~= c + s.skip(8));
    lemma_le16_at(b, h.version_minor, s.skip(8));
}

/// The last four fields of a written header read back as they were.
proof fn lemma_header_end(h: PcapFileHeader, rest: Seq<u8>)
    ensures
        le32(header_bytes(h) + rest, 8) == h.thiszone as u32,
        le32(header_bytes(h) + rest, 12) == h.sigfigs,
        le32(header_bytes(h) + rest, 16) == h.snaplen,
        le32(header_bytes(h) + rest, 20) == h.linktype,
{
    let s = header_bytes(h) + rest;
    let a = le32_bytes(h.magic) + le16_bytes(h.version_major) + le16_bytes(h.version_minor);
    let b = a + le32_bytes(h.thiszone as u32);
    let c = b + le32_bytes(h.sigfigs);
    let d = c + le32_bytes(h.snaplen);
    let e = d + le32_bytes(h.linktype);
    assert(s =~= b + s.skip(12));
    lemma_le32_at(a, h.thiszone as u32, s.skip(12));
    assert(s =~= c + s.skip(16));
    lemma_le32_at(b, h.sigfigs, s.skip(16));
    assert(s =~= d + s.skip(20));
    lemma_le32_at(c, h.snaplen, s.skip(20));
    assert(s =~= e + rest);
    lemma_le32_at(d, h.linktype, rest);
}

/// The global header of a written file reads back as it was.
#[verifier::spinoff_prover]
pub proof fn law_header_roundtrip(snaplen: u32, linktype: u32, rest: Seq<u8>)
    ensures
        file_header(header_bytes(PcapFileHeader::fresh(snaplen, linktype)) + rest) == Ok::<
            PcapFileHeader,
            SavefileError,
        >(PcapFileHeader::fresh(snaplen, linktype)),
        (header_bytes(PcapFileHeader::fresh(snaplen, linktype)) + rest).skip(24) == rest,
{
    let h = PcapFileHeader::fresh(snaplen, linktype);
    let s = header_bytes(h) + rest;
    assert(header_bytes(h).len() == 24);
    lemma_header_start(h, rest);
    lemma_header_end(h, rest);
    assert(s.skip(24) =~= rest);
}

/// A file ends cleanly exactly where nothing is left of it. A record that is
/// read is whole: its frame has the captured length, and nothing but its header
/// and its frame is used up.
pub proof fn law_clean_end(h: PcapFileHeader, rest: Seq<u8>)
    ensures
        next_record(h, rest).0 == Ok::<Option<Packet>, SavefileError>(None) <==> rest.len() == 0,
        next_record(h, rest).0 matches Ok(Some(p)) ==> p.data.len() == p.caplen && p.pkttype == 0
            && rest.len() == 16 + p.caplen + next_record(h, rest).1.len(),
        0 < rest.len() < 16 ==> next_record(h, rest).0 == Err::<Option<Packet>, SavefileError>(
            SavefileError::Truncated,
        ),
{
}

/// The fields of a written record read back as they were.
proof fn lemma_record_fields(snaplen: u32, f: Frame, rest: Seq<u8>)
    ensures
        ({
            let s = record_bytes(snaplen, f.ts_sec, f.ts_frac, f.data) + rest;
            &&& le32(s, 0) == f.ts_sec
            &&& le32(s, 4) == f.ts_frac
            &&& le32(s, 8) == stored_len(snaplen, f.data)
            &&& le32(s, 12) == f.data.len() as u32
        }),
{
    let s = record_bytes(snaplen, f.ts_sec, f.ts_frac, f.data) + rest;
    let n = stored_len(snaplen, f.data) as u32;
    let a = le32_bytes(f.ts_sec);
    let b = a + le32_bytes(f.ts_frac);
    let c = b + le32_bytes(n);
    let d = c + le32_bytes(f.data.len() as u32);
    assert(s =~= Seq::<u8>::empty() + a + s.skip(4));
    lemma_le32_at(Seq::empty(), f.ts_sec, s.skip(4));
    assert(s =~= b + s.skip(8));
    lemma_le32_at(a, f.ts_frac, s.skip(8));
    assert(s =~= c + s.skip(12));
    lemma_le32_at(b, n, s.skip(12));
    assert(s =~= d + s.skip(16));
    lemma_le32_at(c, f.data.len() as u32, s.skip(16));
}

/// A written record is its header and what is kept of the frame.
proof fn lemma_record_frame(snaplen: u32, f: Frame, rest: Seq<u8>)
    ensures
        ({
            let s = record_bytes(snaplen, f.ts_sec, f.ts_frac, f.data) + rest;
            let n = stored_len(snaplen, f.data);
            &&& s.len() == 16 + n + rest.len()
            &&& s.subrange(16, 16 + n) == f.data.take(n)
            &&& s.skip(16 + n) == rest
        }),
{
    let s = record_bytes(snaplen, f.ts_sec, f.ts_frac, f.data) + rest;
    let n = stored_len(snaplen, f.data);
    assert(s.subrange(16, 16 + n) =~= f.data.take(n));
    assert(s.skip(16 + n) =~= rest);
}

/// A written record reads back as what is kept of the frame, and leaves what
/// stands behind it.
#[verifier::spinoff_prover]
pub proof fn law_record_roundtrip(snaplen: u32, linktype: u32, f: Frame, rest: Seq<u8>)
    ensures
        next_record(
            PcapFileHeader::fresh(snaplen, linktype),
            record_bytes(snaplen, f.ts_sec, f.ts_frac, f.data) + rest,
        ) == (Ok::<Option<Packet>, SavefileError>(Some(kept(snaplen, f))), rest),
{
    lemma_record_fields(snaplen, f, rest);
    lemma_record_frame(snaplen, f, rest);
}

/// The first of several records.
proof fn lemma_first_record(h: PcapFileHeader, s: Seq<u8>, p: Packet, behind: Seq<u8>)
    requires
        next_record(h, s) == (Ok::<Option<Packet>, SavefileError>(Some(p)), behind),
        behind.len() < s.len(),
    ensures
        records(h, s) == seq![p] + records(h, behind),
{
}

/// Reading a written record and those behind it gives what is kept of the frame,
/// then the others.
#[verifier::spinoff_prover]
proof fn lemma_read_on(snaplen: u32, linktype: u32, f: Frame, rest: Seq<u8>)
    ensures
        records(
            PcapFileHeader::fresh(snaplen, linktype),
            record_bytes(snaplen, f.ts_sec, f.ts_frac, f.data) + rest,
        ) == seq![kept(snaplen, f)] + records(PcapFileHeader::fresh(snaplen, linktype), rest),
{
    let h = PcapFileHeader::fresh(snaplen, linktype);
    let s = record_bytes(snaplen, f.ts_sec, f.ts_frac, f.data) + rest;
    law_record_roundtrip(snaplen, linktype, f, rest);
    lemma_record_frame(snaplen, f, rest);
    lemma_first_record(h, s, kept(snaplen, f), rest);
}

/// Reading a file gives back what was written to it: every frame, in order,
/// cut off at the snapshot length.
#[verifier::spinoff_prover]
pub proof fn law_file_roundtrip(snaplen: u32, linktype: u32, frames: Seq<Frame>)
    ensures
        records(PcapFileHeader::fresh(snaplen, linktype), records_bytes(snaplen, frames))
            == frames.map_values(|f: Frame| kept(snaplen, f)),
    decreases frames.len(),
{
    let h = PcapFileHeader::fresh(snaplen, linktype);
    let want = frames.map_values(|f: Frame| kept(snaplen, f));
    if frames.len() > 0 {
        let tail = frames.skip(1);
        lemma_read_on(snaplen, linktype, frames[0], records_bytes(snaplen, tail));
        law_file_roundtrip(snaplen, linktype, tail);
        assert(want =~= seq![kept(snaplen, frames[0])] + tail.map_values(
            |f: Frame| kept(snaplen, f),
        ));
    } else {
        assert(want =~= Seq::<Packet>::empty());
        assert(records(h, Seq::<u8>::empty()) =~= Seq::<Packet>::empty());
    }
}

// ---------------------------------------------------------------------------
// Laws on the layout

/// A file is told by its first four bytes, which also tell its byte order and
/// the precision of its timestamps. Any others are no such file, and 24 bytes
/// are needed.
pub proof fn law_magic(s: Seq<u8>)
    ensures
        ({
            let little = s[0] == 0xd4 && s[1] == 0xc3 && s[2] == 0xb2 && s[3] == 0xa1;
            let little_nano = s[0] == 0x4d && s[1] == 0x3c && s[2] == 0xb2 && s[3] == 0xa1;
            let big = s[0] == 0xa1 && s[1] == 0xb2 && s[2] == 0xc3 && s[3] == 0xd4;
            let big_nano = s[0] == 0xa1 && s[1] == 0xb2 && s[2] == 0x3c && s[3] == 0x4d;
            let r = file_header(s);
            &&& s.len() < 24 ==> r == Err::<PcapFileHeader, SavefileError>(SavefileError::Truncated)
            &&& s.len() >= 24 && !(little || little_nano || big || big_nano) ==> r == Err::<
                PcapFileHeader,
                SavefileError,
            >(SavefileError::BadMagic)
            &&& s.len() >= 24 && (little || little_nano || big || big_nano) ==> r is Ok
                && r->Ok_0.nano() == (little_nano || big_nano) && r->Ok_0.swapped() == (big
                || big_nano)
        }),
{
    law_little_endian(s, 0);
}

/// The fields of the global header of a file: two bytes each for the version,
/// four each for time zone, precision, snapshot length and link type, in the
/// byte order of the file.
pub proof fn law_header_fields(s: Seq<u8>)
    requires
        file_header(s) is Ok,
    ensures
        ({
            let h = file_header(s)->Ok_0;
            let zone = if h.thiszone < 0 {
                h.thiszone + 0x1_0000_0000
            } else {
                h.thiszone as int
            };
            &&& !h.swapped() ==> {
                &&& h.version_major == s[4] + 256 * s[5]
                &&& h.version_minor == s[6] + 256 * s[7]
                &&& zone == s[8] + 256 * (s[9] + 256 * (s[10] + 256 * s[11]))
                &&& h.sigfigs == s[12] + 256 * (s[13] + 256 * (s[14] + 256 * s[15]))
                &&& h.snaplen == s[16] + 256 * (s[17] + 256 * (s[18] + 256 * s[19]))
                &&& h.linktype == s[20] + 256 * (s[21] + 256 * (s[22] + 256 * s[23]))
            }
            &&& h.swapped() ==> {
                &&& h.version_major == s[5] + 256 * s[4]
                &&& h.version_minor == s[7] + 256 * s[6]
                &&& zone == s[11] + 256 * (s[10] + 256 * (s[9] + 256 * s[8]))
                &&& h.sigfigs == s[15] + 256 * (s[14] + 256 * (s[13] + 256 * s[12]))
                &&& h.snaplen == s[19] + 256 * (s[18] + 256 * (s[17] + 256 * s[16]))
                &&& h.linktype == s[23] + 256 * (s[22] + 256 * (s[21] + 256 * s[20]))
            }
        }),
{
    let z = field32(file_header(s)->Ok_0.swapped(), s, 8) as u32;
    assert(z < 0x8000_0000u32 ==> z as i32 == z) by (bit_vector);
    assert(z >= 0x8000_0000u32 ==> z as i32 + 0x1_0000_0000i64 == z) by (bit_vector);
}

/// A packet record that is read: four bytes each for seconds, fraction,
/// captured and original length, in the byte order of the file, and then the
/// frame, of the captured length. What lies behind is left.
pub proof fn law_record_layout(h: PcapFileHeader, rest: Seq<u8>, n: int)
    requires
        rest.len() >= 16,
        n == (if h.swapped() {
            rest[11] + 256 * (rest[10] + 256 * (rest[9] + 256 * rest[8]))
        } else {
            rest[8] + 256 * (rest[9] + 256 * (rest[10] + 256 * rest[11]))
        }),
    ensures
        ({
            let (r, left) = next_record(h, rest);
            let bad = n > h.snaplen && n > 16_777_216 && !h.nano();
            &&& bad ==> r == Err::<Option<Packet>, SavefileError>(SavefileError::TooLarge) && left
                == rest.subrange(16, rest.len() as int)
            &&& !bad && rest.len() < 16 + n ==> r == Err::<Option<Packet>, SavefileError>(
                SavefileError::Truncated,
            ) && left.len() == 0
            &&& !bad && rest.len() >= 16 + n ==> {
                &&& r matches Ok(Some(p))
                &&& p.caplen == n
                &&& p.data == rest.subrange(16, 16 + n)
                &&& p.pkttype == 0
                &&& left == rest.subrange(16 + n, rest.len() as int)
                &&& !h.swapped() ==> p.ts_sec == rest[0] + 256 * (rest[1] + 256 * (rest[2] + 256
                    * rest[3])) && p.ts_frac == rest[4] + 256 * (rest[5] + 256 * (rest[6] + 256
                    * rest[7])) && p.origlen == rest[12] + 256 * (rest[13] + 256 * (rest[14] + 256
                    * rest[15]))
                &&& h.swapped() ==> p.ts_sec == rest[3] + 256 * (rest[2] + 256 * (rest[1] + 256
                    * rest[0])) && p.ts_frac == rest[7] + 256 * (rest[6] + 256 * (rest[5] + 256
                    * rest[4])) && p.origlen == rest[15] + 256 * (rest[14] + 256 * (rest[13] + 256
                    * rest[12]))
            }
        }),
{
    assert(rest.skip(16) =~= rest.subrange(16, rest.len() as int));
    if rest.len() >= 16 + n {
        assert(rest.skip(16 + n) =~= rest.subrange(16 + n, rest.len() as int));
    }
}

/// The global header of a new file, byte by byte: the magic number of a
/// little-endian file with microseconds, version 2.4, zeros for time zone and
/// precision, then snapshot length and link type with their least significant
/// bytes first.
pub proof fn law_fresh_header(snaplen: u32, linktype: u32)
    ensures
        ({
            let b = header_bytes(PcapFileHeader::fresh(snaplen, linktype));
            &&& b.len() == 24
            &&& b[0] == 0xd4 && b[1] == 0xc3 && b[2] == 0xb2 && b[3] == 0xa1
            &&& b[4] == 2 && b[5] == 0 && b[6] == 4 && b[7] == 0
            &&& b[8] == 0 && b[9] == 0 && b[10] == 0 && b[11] == 0
            &&& b[12] == 0 && b[13] == 0 && b[14] == 0 && b[15] == 0
            &&& b[16] + 256 * (b[17] + 256 * (b[18] + 256 * b[19])) == snaplen
            &&& b[20] + 256 * (b[21] + 256 * (b[22] + 256 * b[23])) == linktype
        }),
{
    let h = PcapFileHeader::fresh(snaplen, linktype);
    let b = header_bytes(h);
    lemma_header_start(h, Seq::empty());
    lemma_header_end(h, Seq::empty());
    assert(b + Seq::<u8>::empty() =~= b);
}

/// A written record, byte by byte: seconds, fraction, stored and whole length
/// with their least significant bytes first, then as much of the frame as the
/// snapshot length lets through.
pub proof fn law_written_record(snaplen: u32, ts_sec: u32, ts_frac: u32, data: Seq<u8>, n: int)
    requires
        data.len() <= u32::MAX,
        n == (if data.len() < snaplen {
            data.len() as int
        } else {
            snaplen as int
        }),
    ensures
        ({
            let b = record_bytes(snaplen, ts_sec, ts_frac, data);
            &&& b.len() == 16 + n
            &&& b[0] + 256 * (b[1] + 256 * (b[2] + 256 * b[3])) == ts_sec
            &&& b[4] + 256 * (b[5] + 256 * (b[6] + 256 * b[7])) == ts_frac
            &&& b[8] + 256 * (b[9] + 256 * (b[10] + 256 * b[11])) == n
            &&& b[12] + 256 * (b[13] + 256 * (b[14] + 256 * b[15])) == data.len()
            &&& b.subrange(16, 16 + n) == data.subrange(0, n)
        }),
{
    let f = Frame { ts_sec, ts_frac, data };
    let b = record_bytes(snaplen, ts_sec, ts_frac, data);
    lemma_record_fields(snaplen, f, Seq::empty());
    assert(b + Seq::<u8>::empty() =~= b);
    assert(b.subrange(16, 16 + n) =~= data.subrange(0, n));
}

/// Records stand one behind the other, in the order of their frames.
pub proof fn law_records_in_order(snaplen: u32, a: Seq<Frame>, b: Seq<Frame>)
    ensures
        records_bytes(snaplen, a + b) == records_bytes(snaplen, a) + records_bytes(snaplen, b),
        a.len() == 1 ==> records_bytes(snaplen, a) == record_bytes(
            snaplen,
            a[0].ts_sec,
            a[0].ts_frac,
            a[0].data,
        ),
    decreases a.len(),
{
    if a.len() == 0 {
        assert(a + b =~= b);
        assert(records_bytes(snaplen, a) + records_bytes(snaplen, b) =~= records_bytes(snaplen, b));
    } else {
        let r = record_bytes(snaplen, a[0].ts_sec, a[0].ts_frac, a[0].data);
        law_records_in_order(snaplen, a.skip(1), b);
        assert((a + b).skip(1) =~= a.skip(1) + b);
        assert(records_bytes(snaplen, a + b) =~= records_bytes(snaplen, a) + records_bytes(
            snaplen,
            b,
        ));
        if a.len() == 1 {
            assert(a.skip(1).len() == 0);
            assert(records_bytes(snaplen, a) =~= r);
        }
    }
}

/// What is kept of a frame: its times, its whole length, and its first bytes up
/// to the snapshot length.
pub proof fn law_kept(snaplen: u32, f: Frame)
    requires
        f.data.len() <= u32::MAX,
    ensures
        ({
            let p = kept(snaplen, f);
            &&& p.ts_sec == f.ts_sec && p.ts_frac == f.ts_frac && p.pkttype == 0
            &&& p.origlen == f.data.len()
            &&& p.caplen == p.data.len()
            &&& f.data.len() <= snaplen ==> p.data == f.data
            &&& f.data.len() > snaplen ==> p.data.len() == snaplen && p.data == f.data.subrange(
                0,
                snaplen as int,
            )
        }),
{
    let p = kept(snaplen, f);
    if f.data.len() <= snaplen {
        assert(p.data =~= f.data);
    } else {
        assert(p.data =~= f.data.subrange(0, snaplen as int));
    }
}

/// The errors in words.
pub proof fn law_savefile_errors()
    ensures
        SavefileError::Truncated.text() == "failed to fill whole buffer"@,
        SavefileError::BadMagic.text() == "not a pcap file (bad magic)"@,
        SavefileError::TooLarge.text() == "corrupt controller (caplen too large)"@,
{
}

} // verus!
