use vstd::prelude::*;

use crate::data::log_record::{
    byte_at, parse_frame, read_padded, LogRecord, LogRecordType, ParsedRecord, ReadLogRecord,
};
use crate::data::varint::parse_varint;
use crate::errors::Errors;
use crate::fio::file_io::FileIO;
use crate::fio::{new_io_manager, IOManager};
use crate::util::{bytes_equal, subvec};

verus! {

/// Powers of ten, for building and reading decimal file names.
pub open spec fn pow10(k: nat) -> nat
    decreases k,
{
    if k == 0 {
        1
    } else {
        10 * pow10((k - 1) as nat)
    }
}

pub proof fn lemma_pow10_pos(k: nat)
    ensures
        pow10(k) >= 1,
    decreases k,
{
    if k > 0 {
        lemma_pow10_pos((k - 1) as nat);
    }
}

/// The ASCII digit for `d`.
pub open spec fn ascii_digit(d: nat) -> u8 {
    (48 + d % 10) as u8
}

/// The id as at least nine decimal digits, zero-padded: ids too wide for
/// nine digits keep their leading digit.
pub open spec fn padded_digits(id: nat) -> Seq<u8> {
    if id < 1000000000 {
        Seq::new(9, |q: int| ascii_digit(id / pow10((8 - q) as nat)))
    } else {
        seq![ascii_digit(id / 1000000000)] + Seq::new(
            9,
            |q: int| ascii_digit(id / pow10((8 - q) as nat)),
        )
    }
}

/// The file name a data file with this id carries: the zero-padded id
/// followed by ".data".
pub open spec fn data_file_name(id: nat) -> Seq<u8> {
    padded_digits(id) + seq![46u8, 100, 97, 116, 97]
}

/// The name of the data file with the given id, as ASCII bytes.
pub fn get_data_file_name(file_id: u32) -> (r: Vec<u8>)
    ensures
        r@ == data_file_name(file_id as nat),
{
    let mut out: Vec<u8> = Vec::new();
    if file_id >= 1000000000 {
        out.push((file_id / 1000000000) as u8 + 48);
    }
    let ghost lead = out@;
    let mut div: u32 = 100000000;
    let mut i: usize = 0;
    proof {
        assert(pow10(8) == 100000000) by {
            reveal_with_fuel(pow10, 9);
        };
        if file_id >= 1000000000 {
            assert(lead =~= seq![ascii_digit(file_id as nat / 1000000000)]);
        }
    }
    while i < 9
        invariant
            i <= 9,
            1 <= div,
            i < 9 ==> div == pow10((8 - i) as nat),
            out@.len() == lead.len() + i,
            out@.subrange(0, lead.len() as int) == lead,
            lead == (if file_id >= 1000000000 {
                seq![ascii_digit(file_id as nat / 1000000000)]
            } else {
                Seq::<u8>::empty()
            }),
            forall|q: int| 0 <= q < i ==> #[trigger] out@[lead.len() + q] == ascii_digit(
                file_id as nat / pow10((8 - q) as nat),
            ),
        decreases 9 - i,
    {
        let d: u8 = ((file_id / div) % 10) as u8 + 48;
        out.push(d);
        proof {
            assert(ascii_digit(file_id as nat / pow10((8 - i) as nat)) == (48 + (file_id as nat
                / pow10((8 - i) as nat)) % 10) as u8);
            assert(pow10((8 - i) as nat) == div);
        }
        if i < 8 {
            proof {
                assert(pow10((8 - i) as nat) == 10 * pow10((7 - i) as nat));
                lemma_pow10_pos((7 - i) as nat);
            }
            div = div / 10;
            proof {
                assert(div == pow10((7 - i) as nat)) by (nonlinear_arith)
                    requires
                        10 * pow10((7 - i) as nat) / 10 == div,
                ;
            }
        }
        i = i + 1;
    }
    let ghost digits_part = out@;
    proof {
        let pd = padded_digits(file_id as nat);
        assert(pd.len() == lead.len() + 9);
        assert forall|p: int| 0 <= p < pd.len() implies digits_part[p] == pd[p] by {
            if p < lead.len() {
                assert(digits_part.subrange(0, lead.len() as int)[p] == digits_part[p]);
            } else {
                let q = p - lead.len();
                assert(digits_part[lead.len() + q] == ascii_digit(file_id as nat / pow10((8
                    - q) as nat)));
            }
        }
        assert(digits_part =~= pd);
    }
    out.push(46);
    out.push(100);
    out.push(97);
    out.push(116);
    out.push(97);
    proof {
        assert(out@ =~= data_file_name(file_id as nat));
    }
    out
}

/// One data file: an id, the bytes it holds, and the write cursor every
/// append goes through.
pub struct DataFile {
    file_id: u32,
    write_off: u64,
    io: FileIO,
}

impl DataFile {
    /// The id the file is named with.
    pub closed spec fn id(self) -> u32 {
        self.file_id
    }

    /// The bytes the file holds.
    pub closed spec fn data(self) -> Seq<u8> {
        self.io@
    }

    /// The write cursor: where the next append lands.
    pub closed spec fn off(self) -> u64 {
        self.write_off
    }

    /// The cursor sits at the end of the file, where appends go.
    pub open spec fn wf(self) -> bool {
        self.off() == self.data().len()
    }

    /// A data file over the given bytes, with the cursor at their end.
    pub fn new(file_id: u32, initial: Vec<u8>) -> (r: DataFile)
        ensures
            r.id() == file_id,
            r.data() == initial@,
            r.wf(),
    {
        let io = new_io_manager(initial);
        let off = io.len() as u64;
        DataFile { file_id, write_off: off, io }
    }

    /// Appends the bytes and advances the cursor past them.
    pub fn write(&mut self, buf: &Vec<u8>) -> (r: Result<usize, Errors>)
        requires
            old(self).wf(),
        ensures
            final(self).wf(),
            final(self).id() == old(self).id(),
            final(self).data() == old(self).data() + buf@,
            final(self).off() == old(self).off() + buf@.len(),
            r == Ok::<usize, Errors>(buf.len()),
    {
        let n = match self.io.write(buf) {
            Ok(n) => n,
            Err(e) => {
                return Err(e);
            },
        };
        self.write_off = self.io.len() as u64;
        Ok(n)
    }

    /// Moves the cursor back to `offset`, discarding the bytes past it: the
    /// store is append-only from the cursor, so what follows it is gone.
    pub fn set_write_off(&mut self, offset: u64)
        requires
            offset <= old(self).data().len(),
        ensures
            final(self).wf(),
            final(self).id() == old(self).id(),
            final(self).off() == offset,
            final(self).data() == old(self).data().subrange(0, offset as int),
    {
        let len_now = self.io.len();
        proof {
            assert(offset <= len_now);
        }
        self.io.truncate(offset as usize);
        self.write_off = offset;
    }

    /// Where the next append lands.
    pub fn get_write_off(&self) -> (r: u64)
        ensures
            r == self.off(),
    {
        self.write_off
    }

    /// The id the file is named with.
    pub fn get_file_id(&self) -> (r: u32)
        ensures
            r == self.id(),
    {
        self.file_id
    }

    /// Forces the file's bytes down to its store.
    pub fn sync(&self) -> (r: Result<(), Errors>)
        ensures
            r is Ok,
    {
        self.io.sync()
    }

    /// Number of bytes the file holds.
    pub fn data_len(&self) -> (r: usize)
        ensures
            r == self.data().len(),
    {
        self.io.len()
    }

    /// The whole file as an owned byte vector.
    pub fn contents(&self) -> (r: Vec<u8>)
        ensures
            r@ == self.data(),
    {
        self.io.to_vec()
    }

    /// Reads the one record framed at `offset`: the record and the number of
    /// bytes its frame occupies. The end-of-file sentinel reads as
    /// `ReadDataFileEOF`; anything malformed reads as `InvalidLogRecordCrc`.
    pub fn read_log_record(&self, offset: u64) -> (r: Result<ReadLogRecord, Errors>)
        ensures
            match parse_frame(self.data(), offset as int) {
                ParsedRecord::Eof => r == Err::<ReadLogRecord, Errors>(Errors::ReadDataFileEOF),
                ParsedRecord::Corrupt => r == Err::<ReadLogRecord, Errors>(
                    Errors::InvalidLogRecordCrc,
                ),
                ParsedRecord::Valid { rec, size } => r is Ok && r->Ok_0.record@ == rec
                    && r->Ok_0.size == size,
            },
    {
        let ghost data = self.data();
        let ghost hdr = read_padded(data, offset as int, 11);
        let flen = self.io.len();
        let header_buf = self.io.read(
            offset,
            crate::data::log_record::max_log_record_header_size(),
        );
        proof {
            assert(header_buf@ == hdr);
        }
        let (ks, p1) = match crate::data::varint::decode_varint(&header_buf, 1) {
            Some(kp) => kp,
            None => {
                proof {
                    lemma_oversized_is_corrupt(data, offset as int);
                }
                return Err(Errors::InvalidLogRecordCrc);
            },
        };
        proof {
            crate::data::varint::lemma_parse_varint_bounds(hdr, 1, 10);
            assert(parse_varint(hdr, 1) == Some((ks as nat, p1 as int)));
        }
        let (vs, hs) = match crate::data::varint::decode_varint(&header_buf, p1) {
            Some(vp) => vp,
            None => {
                proof {
                    lemma_oversized_is_corrupt(data, offset as int);
                }
                return Err(Errors::InvalidLogRecordCrc);
            },
        };
        proof {
            crate::data::varint::lemma_parse_varint_bounds(hdr, p1 as int, 10);
            assert(parse_varint(hdr, p1 as int) == Some((vs as nat, hs as int)));
        }
        if ks == 0 && vs == 0 {
            return Err(Errors::ReadDataFileEOF);
        }
        let mut avail: u64 = if offset >= flen as u64 {
            0
        } else {
            flen as u64 - offset
        };
        proof {
            assert(avail == if offset as int >= data.len() {
                0int
            } else {
                data.len() - offset as int
            });
        }
        if hs as u64 > avail {
            proof {
                assert(offset as int + hs + ks + vs + 4 > data.len());
            }
            return Err(Errors::InvalidLogRecordCrc);
        }
        avail = avail - hs as u64;
        if ks > avail {
            proof {
                assert(offset as int + hs + ks + vs + 4 > data.len());
            }
            return Err(Errors::InvalidLogRecordCrc);
        }
        avail = avail - ks;
        if vs > avail {
            proof {
                assert(offset as int + hs + ks + vs + 4 > data.len());
            }
            return Err(Errors::InvalidLogRecordCrc);
        }
        avail = avail - vs;
        if avail < 4 {
            proof {
                assert(offset as int + hs + ks + vs + 4 > data.len());
            }
            return Err(Errors::InvalidLogRecordCrc);
        }
        proof {
            assert(offset as int + hs + ks + vs + 4 <= data.len());
            assert(ks + vs <= usize::MAX);
        }
        let body_len: usize = hs + ks as usize + vs as usize;
        let tag = header_buf[0];
        proof {
            assert(hdr[0] == byte_at(data, offset as int));
        }
        if !(tag == 1 || tag == 2 || tag == 3) {
            return Err(Errors::InvalidLogRecordCrc);
        }
        let body_buf = self.io.read(offset, body_len);
        proof {
            lemma_read_padded_in_range(data, offset as int, body_len as nat);
        }
        let crc = crate::data::log_record::crc32(&body_buf);
        let crc_bytes = crate::data::log_record::u32_be_bytes(crc);
        let stored = self.io.read(offset + body_len as u64, 4);
        proof {
            lemma_read_padded_in_range(data, offset as int + body_len as int, 4);
        }
        if !bytes_equal(&stored, &crc_bytes) {
            return Err(Errors::InvalidLogRecordCrc);
        }
        let key = subvec(&body_buf, hs, hs + ks as usize);
        let value = subvec(&body_buf, hs + ks as usize, body_len);
        let rec_type = LogRecordType::from_u8(tag);
        proof {
            lemma_subrange_of_subrange(
                data,
                offset as int,
                body_len as int,
                hs as int,
                hs as int + ks as int,
            );
            lemma_subrange_of_subrange(
                data,
                offset as int,
                body_len as int,
                hs as int + ks as int,
                body_len as int,
            );
        }
        Ok(ReadLogRecord {
            record: LogRecord { key, value, rec_type },
            size: hs as u64 + ks + vs + 4,
        })
    }
}

/// When either size varint of the header is malformed or stands for a value
/// past 64 bits, the frame is corrupt: such a size cannot fit in any file.
proof fn lemma_oversized_is_corrupt(data: Seq<u8>, off: int)
    requires
        off >= 0,
        data.len() <= usize::MAX,
        ({
            let hdr = read_padded(data, off, 11);
            match parse_varint(hdr, 1) {
                None => true,
                Some(kp) => kp.0 > u64::MAX || (match parse_varint(hdr, kp.1) {
                    None => true,
                    Some(vp) => vp.0 > u64::MAX,
                }),
            }
        }),
    ensures
        parse_frame(data, off) is Corrupt,
{
    let hdr = read_padded(data, off, 11);
    match parse_varint(hdr, 1) {
        None => {},
        Some(kp) => {
            crate::data::varint::lemma_parse_varint_bounds(hdr, 1, 10);
            match parse_varint(hdr, kp.1) {
                None => {},
                Some(vp) => {
                    crate::data::varint::lemma_parse_varint_bounds(hdr, kp.1, 10);
                    assert(kp.0 > u64::MAX || vp.0 > u64::MAX);
                    assert(!(kp.0 == 0 && vp.0 == 0));
                    assert(usize::MAX <= u64::MAX);
                    assert(off + vp.1 + kp.0 + vp.0 + 4 > data.len());
                },
            }
        },
    }
}

/// A padded read that stays inside the file is just a slice of it.
proof fn lemma_read_padded_in_range(data: Seq<u8>, off: int, len: nat)
    requires
        0 <= off,
        off + len <= data.len(),
    ensures
        read_padded(data, off, len) == data.subrange(off, off + len),
{
    assert(read_padded(data, off, len) =~= data.subrange(off, off + len));
}

/// Slicing a slice of `data` reads the same bytes as slicing `data` itself.
proof fn lemma_subrange_of_subrange(data: Seq<u8>, off: int, len: int, a: int, b: int)
    requires
        0 <= off,
        0 <= a <= b <= len,
        off + len <= data.len(),
    ensures
        data.subrange(off, off + len).subrange(a, b) == data.subrange(off + a, off + b),
{
    assert(data.subrange(off, off + len).subrange(a, b) =~= data.subrange(off + a, off + b));
}

} // verus!
