use vstd::prelude::*;

use crate::data::varint::{
    encode_varint, lemma_parse_varint_agrees, lemma_parse_varint_bounds,
    lemma_parse_varint_encode, lemma_varint_len, lemma_varint_len_u32, lemma_varint_len_u64,
    parse_varint, varint, varint_len,
};

verus! {

/// Kind of one record in a data file.
#[derive(PartialEq, Eq, Structural, Copy, Clone, Debug)]
pub enum LogRecordType {
    /// A live key/value pair.
    NORMAL,
    /// A tombstone superseding any earlier value for its key.
    DELETED,
    /// Marks every record sharing its sequence number as committed.
    TXN_FINISHED,
}

/// The one-byte tag a record type is framed with.
pub open spec fn type_tag(t: LogRecordType) -> u8 {
    match t {
        LogRecordType::NORMAL => 1,
        LogRecordType::DELETED => 2,
        LogRecordType::TXN_FINISHED => 3,
    }
}

/// The record type a valid tag byte stands for.
pub open spec fn tag_to_type(tag: u8) -> LogRecordType {
    if tag == 1 {
        LogRecordType::NORMAL
    } else if tag == 2 {
        LogRecordType::DELETED
    } else {
        LogRecordType::TXN_FINISHED
    }
}

impl LogRecordType {
    /// Reads a record type back from its tag byte; tags outside the three
    /// known ones are never produced by the engine.
    pub fn from_u8(v: u8) -> (r: Self)
        requires
            1 <= v <= 3,
        ensures
            r == tag_to_type(v),
            type_tag(r) == v,
    {
        if v == 1 {
            LogRecordType::NORMAL
        } else if v == 2 {
            LogRecordType::DELETED
        } else {
            LogRecordType::TXN_FINISHED
        }
    }

    /// The tag byte this record type is framed with.
    pub fn as_u8(self) -> (r: u8)
        ensures
            r == type_tag(self),
    {
        match self {
            LogRecordType::NORMAL => 1,
            LogRecordType::DELETED => 2,
            LogRecordType::TXN_FINISHED => 3,
        }
    }
}

/// One record as appended to a data file.
#[derive(Debug)]
pub struct LogRecord {
    pub key: Vec<u8>,
    pub value: Vec<u8>,
    pub rec_type: LogRecordType,
}

/// The mathematical content of a record: its bytes and its kind.
pub struct LogRecordView {
    pub key: Seq<u8>,
    pub value: Seq<u8>,
    pub rec_type: LogRecordType,
}

impl View for LogRecord {
    type V = LogRecordView;

    open spec fn view(&self) -> LogRecordView {
        LogRecordView { key: self.key@, value: self.value@, rec_type: self.rec_type }
    }
}

/// The CRC-32 (IEEE polynomial) of a byte sequence, as crc32fast computes it.
pub uninterp spec fn crc32_of(data: Seq<u8>) -> u32;

/// Relies on crc32fast::hash: the IEEE CRC-32 of the bytes, a function of the
/// bytes alone.
#[verifier::external_body]
pub(crate) fn crc32(data: &Vec<u8>) -> (r: u32)
    ensures
        r == crc32_of(data@),
{
    crc32fast::hash(data.as_slice())
}

/// Big-endian bytes of a 32-bit value.
pub open spec fn u32_be(x: u32) -> Seq<u8> {
    seq![
        (x / 0x1000000) as u8,
        ((x / 0x10000) % 256) as u8,
        ((x / 256) % 256) as u8,
        (x % 256) as u8,
    ]
}

pub(crate) fn u32_be_bytes(x: u32) -> (r: Vec<u8>)
    ensures
        r@ == u32_be(x),
{
    let mut out: Vec<u8> = Vec::new();
    out.push((x / 0x1000000) as u8);
    out.push(((x / 0x10000) % 256) as u8);
    out.push(((x / 256) % 256) as u8);
    out.push((x % 256) as u8);
    proof {
        assert(out@ =~= u32_be(x));
    }
    out
}

/// A record's bytes before the trailing checksum:
/// type tag, key length, value length, key, value.
pub open spec fn record_body(key: Seq<u8>, value: Seq<u8>, t: LogRecordType) -> Seq<u8> {
    seq![type_tag(t)] + varint(key.len()) + varint(value.len()) + key + value
}

/// A record's full on-disk bytes: the body followed by its big-endian CRC-32.
pub open spec fn record_frame(key: Seq<u8>, value: Seq<u8>, t: LogRecordType) -> Seq<u8> {
    record_body(key, value, t) + u32_be(crc32_of(record_body(key, value, t)))
}

/// Number of bytes the frame of a record with these key and value lengths
/// occupies.
pub open spec fn frame_len(klen: nat, vlen: nat) -> nat {
    1 + varint_len(klen) + varint_len(vlen) + klen + vlen + 4
}

pub proof fn lemma_record_frame_len(key: Seq<u8>, value: Seq<u8>, t: LogRecordType)
    ensures
        record_frame(key, value, t).len() == frame_len(key.len(), value.len()),
        record_body(key, value, t).len() == frame_len(key.len(), value.len()) - 4,
{
    lemma_varint_len(key.len());
    lemma_varint_len(value.len());
}

impl LogRecord {
    /// Encodes the record and also hands back the checksum that was stamped
    /// into the frame.
    pub fn encode_and_get_crc(&self) -> (r: (Vec<u8>, u32))
        ensures
            r.0@ == record_frame(self.key@, self.value@, self.rec_type),
            r.1 == crc32_of(record_body(self.key@, self.value@, self.rec_type)),
    {
        let mut buf: Vec<u8> = Vec::new();
        buf.push(self.rec_type.as_u8());
        encode_varint(self.key.len() as u64, &mut buf);
        encode_varint(self.value.len() as u64, &mut buf);
        buf.extend_from_slice(self.key.as_slice());
        buf.extend_from_slice(self.value.as_slice());
        proof {
            assert(buf@ =~= record_body(self.key@, self.value@, self.rec_type));
        }
        let crc = crc32(&buf);
        let mut tail = u32_be_bytes(crc);
        buf.append(&mut tail);
        proof {
            assert(buf@ =~= record_frame(self.key@, self.value@, self.rec_type));
        }
        (buf, crc)
    }

    /// The on-disk bytes of this record.
    pub fn encode(&self) -> (r: Vec<u8>)
        ensures
            r@ == record_frame(self.key@, self.value@, self.rec_type),
    {
        self.encode_and_get_crc().0
    }

    /// The checksum the record is framed with.
    pub fn get_crc(&self) -> (r: u32)
        ensures
            r == crc32_of(record_body(self.key@, self.value@, self.rec_type)),
    {
        self.encode_and_get_crc().1
    }

    /// Number of bytes `encode` produces.
    pub fn encode_length(&self) -> (r: usize)
        requires
            self.key@.len() + self.value@.len() + 25 <= usize::MAX,
        ensures
            r == record_frame(self.key@, self.value@, self.rec_type).len(),
    {
        let kl = self.key.len();
        let vl = self.value.len();
        proof {
            lemma_record_frame_len(self.key@, self.value@, self.rec_type);
            lemma_varint_len_u64(kl as nat);
            lemma_varint_len_u64(vl as nat);
        }
        1 + varint_len_exec(kl as u64) + varint_len_exec(vl as u64) + kl + vl + 4
    }
}

/// Number of bytes the varint encoding of `n` occupies.
pub fn varint_len_exec(n: u64) -> (r: usize)
    ensures
        r == varint_len(n as nat),
{
    proof {
        lemma_varint_len_u64(n as nat);
    }
    let mut m: u64 = n;
    let mut c: usize = 0;
    while m >= 128
        invariant
            varint_len(n as nat) == c + varint_len(m as nat),
            varint_len(n as nat) <= 10,
        decreases m,
    {
        c = c + 1;
        m = m / 128;
    }
    c + 1
}

/// Upper bound on a record header: one tag byte and two size varints of at
/// most five bytes each.
#[inline]
pub fn max_log_record_header_size() -> (r: usize)
    ensures
        r == 11,
{
    proof {
        assert(varint_len(0xFFFFFFFF) == 5) by {
            reveal_with_fuel(varint_len, 6);
        };
        lemma_varint_len_u32(u32::MAX as nat);
    }
    1 + varint_len_exec(u32::MAX as u64) * 2
}

/// Where a record was appended: which data file and at which byte offset.
#[derive(Debug, Copy, Clone, PartialEq, Eq, Structural)]
pub struct LogRecordPos {
    pub file_id: u32,
    pub offset: u64,
}

/// One record read back from a data file, together with how many bytes its
/// frame occupied.
pub struct ReadLogRecord {
    pub record: LogRecord,
    pub size: u64,
}

/// The byte a positional read yields at `i`: file content inside the file,
/// zero past its end.
pub open spec fn byte_at(data: Seq<u8>, i: int) -> u8 {
    if 0 <= i < data.len() {
        data[i]
    } else {
        0
    }
}

/// `len` bytes read at `off`, zero-padded past the end of the file.
pub open spec fn read_padded(data: Seq<u8>, off: int, len: nat) -> Seq<u8> {
    Seq::new(len, |q: int| byte_at(data, off + q))
}

/// Outcome of reading one frame at a given offset.
pub enum ParsedRecord {
    /// The end-of-file sentinel: both size fields read as zero.
    Eof,
    /// Malformed sizes, a frame running past the end of the file, an unknown
    /// type tag, or a checksum mismatch.
    Corrupt,
    /// A well-formed frame and the number of bytes it occupies.
    Valid { rec: LogRecordView, size: int },
}

impl ParsedRecord {
    pub open spec fn is_valid(self) -> bool {
        self is Valid
    }
}

/// What one read at `off` of the file holding `data` yields: the header
/// window is eleven zero-padded bytes, the two size varints follow the tag
/// byte, and a frame is valid when it lies inside the file, carries a known
/// tag, and its stored checksum matches the one recomputed over its body.
pub open spec fn parse_frame(data: Seq<u8>, off: int) -> ParsedRecord {
    let hdr = read_padded(data, off, 11);
    match parse_varint(hdr, 1) {
        None => ParsedRecord::Corrupt,
        Some(kp) => match parse_varint(hdr, kp.1) {
            None => ParsedRecord::Corrupt,
            Some(vp) => {
                let ks = kp.0;
                let vs = vp.0;
                let hs = vp.1;
                if ks == 0 && vs == 0 {
                    ParsedRecord::Eof
                } else if off < 0 || off + hs + ks + vs + 4 > data.len() {
                    ParsedRecord::Corrupt
                } else {
                    let tag = byte_at(data, off);
                    let body = data.subrange(off, off + hs + ks + vs);
                    let stored = data.subrange(off + hs + ks + vs, off + hs + ks + vs + 4);
                    if !(tag == 1 || tag == 2 || tag == 3) {
                        ParsedRecord::Corrupt
                    } else if stored != u32_be(crc32_of(body)) {
                        ParsedRecord::Corrupt
                    } else {
                        ParsedRecord::Valid {
                            rec: LogRecordView {
                                key: data.subrange(off + hs, off + hs + ks),
                                value: data.subrange(off + hs + ks, off + hs + ks + vs),
                                rec_type: tag_to_type(tag),
                            },
                            size: hs + ks + vs + 4,
                        }
                    }
                }
            },
        },
    }
}

/// An encoded frame written at `off` reads back as exactly the record it
/// encodes, whatever precedes or follows it.
#[verifier::rlimit(30)]
pub proof fn lemma_parse_frame_encode(
    data: Seq<u8>,
    off: int,
    key: Seq<u8>,
    value: Seq<u8>,
    t: LogRecordType,
)
    requires
        1 <= key.len() <= u32::MAX,
        value.len() <= u32::MAX,
        0 <= off,
        off + frame_len(key.len(), value.len()) <= data.len(),
        data.subrange(off, off + frame_len(key.len(), value.len()) as int) == record_frame(
            key,
            value,
            t,
        ),
    ensures
        parse_frame(data, off) == (ParsedRecord::Valid {
            rec: LogRecordView { key, value, rec_type: t },
            size: frame_len(key.len(), value.len()) as int,
        }),
{
    let fl = frame_len(key.len(), value.len()) as int;
    let frame = record_frame(key, value, t);
    let body = record_body(key, value, t);
    lemma_record_frame_len(key, value, t);
    lemma_varint_len(key.len());
    lemma_varint_len(value.len());
    lemma_varint_len_u32(key.len());
    lemma_varint_len_u32(value.len());
    let kn = varint_len(key.len()) as int;
    let vn = varint_len(value.len()) as int;
    let hs = 1 + kn + vn;
    assert forall|q: int| 0 <= q < fl implies data[off + q] == frame[q] by {
        assert(data.subrange(off, off + fl)[q] == data[off + q]);
    }
    let hdr = read_padded(data, off, 11);
    assert forall|q: int| 0 <= q < 11 && q < fl implies hdr[q] == frame[q] by {
        assert(byte_at(data, off + q) == data[off + q]);
    }
    // the two size varints sit inside both the header window and the frame
    assert(hs + 4 <= fl);
    assert(hdr.subrange(1, 1 + kn) =~= varint(key.len())) by {
        assert forall|q: int| 0 <= q < kn implies hdr[1 + q] == varint(key.len())[q] by {
            assert(frame[1 + q] == body[1 + q]);
            assert(body[1 + q] == (seq![type_tag(t)] + varint(key.len()))[1 + q]);
        }
    }
    lemma_parse_varint_encode(hdr, 1, key.len(), 10);
    assert(parse_varint(hdr, 1) == Some((key.len(), 1 + kn)));
    assert(hdr.subrange(1 + kn, hs) =~= varint(value.len())) by {
        assert forall|q: int| 0 <= q < vn implies hdr[1 + kn + q] == varint(value.len())[q] by {
            assert(frame[1 + kn + q] == body[1 + kn + q]);
            assert(body[1 + kn + q] == (seq![type_tag(t)] + varint(key.len()) + varint(
                value.len(),
            ))[1 + kn + q]);
        }
    }
    lemma_parse_varint_encode(hdr, 1 + kn, value.len(), 10);
    assert(parse_varint(hdr, 1 + kn) == Some((value.len(), hs)));
    assert(key.len() != 0);
    assert(off + hs + key.len() + value.len() + 4 <= data.len());
    assert(byte_at(data, off) == frame[0]);
    assert(frame[0] == body[0]);
    assert(body[0] == type_tag(t));
    assert(tag_to_type(type_tag(t)) == t);
    assert(data.subrange(off, off + hs + key.len() + value.len()) =~= body) by {
        assert forall|q: int| 0 <= q < hs + key.len() + value.len() implies data[off + q]
            == body[q] by {
            assert(frame[q] == body[q]);
        }
    }
    assert(data.subrange(
        off + hs + key.len() + value.len(),
        off + hs + key.len() + value.len() + 4,
    ) =~= u32_be(crc32_of(body))) by {
        assert forall|q: int| 0 <= q < 4 implies data[off + hs + key.len() + value.len() + q]
            == u32_be(crc32_of(body))[q] by {
            assert(frame[hs + key.len() + value.len() + q] == u32_be(crc32_of(body))[q]);
        }
    }
    assert(data.subrange(off + hs, off + hs + key.len()) =~= key) by {
        assert forall|q: int| 0 <= q < key.len() implies data[off + hs + q] == key[q] by {
            assert(frame[hs + q] == body[hs + q]);
            assert(body[hs + q] == (seq![type_tag(t)] + varint(key.len()) + varint(value.len())
                + key)[hs + q]);
        }
    }
    assert(data.subrange(off + hs + key.len(), off + hs + key.len() + value.len()) =~= value) by {
        assert forall|q: int| 0 <= q < value.len() implies data[off + hs + key.len() + q]
            == value[q] by {
            assert(frame[hs + key.len() + q] == body[hs + key.len() + q]);
        }
    }
}

/// A valid frame occupies at least its fixed parts and lies wholly inside
/// the file.
pub proof fn lemma_parse_valid_size_bounds(data: Seq<u8>, off: int)
    requires
        parse_frame(data, off) is Valid,
    ensures
        0 <= off,
        7 <= parse_frame(data, off)->size,
        off + parse_frame(data, off)->size <= data.len(),
{
    let hdr = read_padded(data, off, 11);
    let kp = parse_varint(hdr, 1);
    lemma_parse_varint_bounds(hdr, 1, 10);
    let p1 = kp->Some_0.1;
    lemma_parse_varint_bounds(hdr, p1, 10);
}

/// A valid frame wholly inside a prefix of the file reads the same from the
/// prefix alone.
pub proof fn lemma_parse_frame_within(data: Seq<u8>, data2: Seq<u8>, off: int)
    requires
        parse_frame(data, off) is Valid,
        off + parse_frame(data, off)->size <= data2.len() <= data.len(),
        data2 == data.subrange(0, data2.len() as int),
    ensures
        parse_frame(data2, off) == parse_frame(data, off),
{
    lemma_parse_valid_size_bounds(data, off);
    assert forall|q: int| 0 <= q < data2.len() implies data2[q] == data[q] by {
        assert(data.subrange(0, data2.len() as int)[q] == data[q]);
    }
    let hdr = read_padded(data, off, 11);
    let hdr2 = read_padded(data2, off, 11);
    let kp = parse_varint(hdr, 1);
    lemma_parse_varint_bounds(hdr, 1, 10);
    let p1 = kp->Some_0.1;
    let vp = parse_varint(hdr, p1);
    lemma_parse_varint_bounds(hdr, p1, 10);
    let hs = vp->Some_0.1;
    let ks = kp->Some_0.0;
    let vs = vp->Some_0.0;
    let end = off + hs + ks + vs + 4;
    assert(end <= data2.len());
    assert forall|q: int| 1 <= q < hs implies #[trigger] hdr2[q] == hdr[q] by {
        assert(0 <= off + q < data2.len());
        assert(byte_at(data, off + q) == data[off + q]);
        assert(byte_at(data2, off + q) == data2[off + q]);
    }
    lemma_parse_varint_agrees(hdr, hdr2, 1, 10);
    lemma_parse_varint_agrees(hdr, hdr2, p1, 10);
    assert(byte_at(data2, off) == byte_at(data, off));
    assert(data2.subrange(off, off + hs + ks + vs) =~= data.subrange(off, off + hs + ks + vs));
    assert(data2.subrange(off + hs + ks + vs, end) =~= data.subrange(off + hs + ks + vs, end));
    assert(data2.subrange(off + hs, off + hs + ks) =~= data.subrange(off + hs, off + hs + ks));
    assert(data2.subrange(off + hs + ks, off + hs + ks + vs) =~= data.subrange(
        off + hs + ks,
        off + hs + ks + vs,
    ));
}

/// Every record that reads back whole carries, in its last four bytes, the
/// big-endian CRC-32 recomputed over everything before them: on-disk records
/// are checksummed, and the checksum is the body's.
pub proof fn lemma_frame_crc(data: Seq<u8>, off: int)
    requires
        parse_frame(data, off) is Valid,
    ensures
        ({
            let size = parse_frame(data, off)->size;
            data.subrange(off + size - 4, off + size) == u32_be(
                crc32_of(data.subrange(off, off + size - 4)),
            )
        }),
{
    lemma_parse_valid_size_bounds(data, off);
}

/// A frame that reads back as valid still does, unchanged, after the file
/// grows: every byte it touches lies before the old end.
pub proof fn lemma_parse_frame_extend(data: Seq<u8>, data2: Seq<u8>, off: int)
    requires
        parse_frame(data, off) is Valid,
        data2.len() >= data.len(),
        data2.subrange(0, data.len() as int) == data,
    ensures
        parse_frame(data2, off) == parse_frame(data, off),
{
    assert forall|q: int| 0 <= q < data.len() implies data2[q] == data[q] by {
        assert(data.subrange(0, data.len() as int)[q] == data[q]);
    }
    let hdr = read_padded(data, off, 11);
    let hdr2 = read_padded(data2, off, 11);
    let kp = parse_varint(hdr, 1);
    assert(kp is Some);
    lemma_parse_varint_bounds(hdr, 1, 10);
    let p1 = kp->Some_0.1;
    let vp = parse_varint(hdr, p1);
    assert(vp is Some);
    lemma_parse_varint_bounds(hdr, p1, 10);
    let hs = vp->Some_0.1;
    let ks = kp->Some_0.0;
    let vs = vp->Some_0.0;
    let end = off + hs + ks + vs + 4;
    assert(end <= data.len());
    // every header byte the varints consumed lies inside the frame, hence
    // inside the old file contents
    assert forall|q: int| 1 <= q < hs implies #[trigger] hdr2[q] == hdr[q] by {
        assert(0 <= off + q < data.len());
        assert(byte_at(data, off + q) == data[off + q]);
        assert(byte_at(data2, off + q) == data2[off + q]);
    }
    lemma_parse_varint_agrees(hdr, hdr2, 1, 10);
    lemma_parse_varint_agrees(hdr, hdr2, p1, 10);
    assert(parse_varint(hdr2, 1) == kp);
    assert(parse_varint(hdr2, p1) == vp);
    assert(byte_at(data2, off) == byte_at(data, off));
    assert(data2.subrange(off, off + hs + ks + vs) =~= data.subrange(off, off + hs + ks + vs));
    assert(data2.subrange(off + hs + ks + vs, end) =~= data.subrange(off + hs + ks + vs, end));
    assert(data2.subrange(off + hs, off + hs + ks) =~= data.subrange(off + hs, off + hs + ks));
    assert(data2.subrange(off + hs + ks, off + hs + ks + vs) =~= data.subrange(
        off + hs + ks,
        off + hs + ks + vs,
    ));
}

} // verus!
