use vstd::bytes::*;
use vstd::prelude::*;
use vstd::slice::*;

use crate::error::{KVError, KVResult};

verus! {

/// Wire type tag of a Set record.
pub const TAG_SET: u8 = 0;

/// Wire type tag of a Remove record.
pub const TAG_REMOVE: u8 = 1;

/// Bytes of a frame before the key: total length (8), type tag (1),
/// key length (8).
pub const FRAME_HEADER_LEN: u64 = 17;

/// Bytes of a Set frame besides key and value: the common header plus the
/// value length field (8).
pub const SET_OVERHEAD_LEN: u64 = 25;

/// The unit of durability: a single log record, either binding a key to a
/// value or marking the key as removed.
#[derive(Debug)]
pub enum Command {
    Put { key: Vec<u8>, value: Vec<u8> },
    Remove { key: Vec<u8> },
}

/// The mathematical form of a record: the same two variants over byte
/// sequences.
pub enum CommandView {
    Put { key: Seq<u8>, value: Seq<u8> },
    Remove { key: Seq<u8> },
}

impl View for Command {
    type V = CommandView;

    open spec fn view(&self) -> CommandView {
        match self {
            Command::Put { key, value } => CommandView::Put { key: key@, value: value@ },
            Command::Remove { key } => CommandView::Remove { key: key@ },
        }
    }
}

impl CommandView {
    /// The value bytes the record binds; a Remove binds none.
    pub open spec fn value(self) -> Seq<u8> {
        match self {
            CommandView::Put { value, .. } => value,
            CommandView::Remove { .. } => Seq::empty(),
        }
    }

    /// The length in bytes of the record's wire frame.
    pub open spec fn encoded_len(self) -> int {
        match self {
            CommandView::Put { key, value } => SET_OVERHEAD_LEN + key.len() + value.len(),
            CommandView::Remove { key } => FRAME_HEADER_LEN + key.len(),
        }
    }

    /// The record's sizes fit the unsigned 64-bit length fields of the wire
    /// format.
    pub open spec fn valid(self) -> bool {
        self.encoded_len() <= u64::MAX
    }

    /// The wire frame of the record:
    /// `[ total_length: u64 ][ type_tag: u8 ][ key_length: u64 ][ key ]`
    /// and, for Set only, `[ value_length: u64 ][ value ]`, every integer
    /// little-endian. `total_length` covers the entire frame including
    /// itself.
    pub open spec fn encode(self) -> Seq<u8> {
        match self {
            CommandView::Put { key, value } => spec_u64_to_le_bytes(self.encoded_len() as u64)
                + seq![TAG_SET] + spec_u64_to_le_bytes(key.len() as u64) + key
                + spec_u64_to_le_bytes(value.len() as u64) + value,
            CommandView::Remove { key } => spec_u64_to_le_bytes(self.encoded_len() as u64)
                + seq![TAG_REMOVE] + spec_u64_to_le_bytes(key.len() as u64) + key,
        }
    }
}

/// The u64 stored little-endian at `data[pos .. pos + 8]`.
pub open spec fn spec_u64_at(data: Seq<u8>, pos: int) -> u64 {
    spec_u64_from_le_bytes(data.subrange(pos, pos + 8))
}

/// The record framed at `pos` in `data`, with the frame's total length,
/// or `None` if the embedded lengths do not fit the bytes that are there.
///
/// Decoding is purely positional and trusts the embedded lengths, but every
/// slice is bounds-checked: a frame whose fields would reach past its own
/// declared total, or whose total reaches past the buffer, fails rather
/// than panics. A frame may declare a total larger than its fields need;
/// the slack bytes are ignored. A type tag other than `TAG_SET` reads as a
/// Remove record.
pub open spec fn spec_decode_at(data: Seq<u8>, pos: int) -> Option<(CommandView, int)> {
    if pos < 0 || pos + 8 > data.len() {
        None
    } else {
        let total = spec_u64_at(data, pos) as int;
        if total < FRAME_HEADER_LEN || pos + total > data.len() {
            None
        } else {
            let tag = data[pos + 8];
            let klen = spec_u64_at(data, pos + 9) as int;
            if klen > total - FRAME_HEADER_LEN {
                None
            } else {
                let key = data.subrange(pos + 17, pos + 17 + klen);
                if tag == TAG_SET {
                    if klen > total - SET_OVERHEAD_LEN {
                        None
                    } else {
                        let vlen = spec_u64_at(data, pos + 17 + klen) as int;
                        if vlen > total - SET_OVERHEAD_LEN - klen {
                            None
                        } else {
                            let value = data.subrange(pos + 25 + klen, pos + 25 + klen + vlen);
                            Some((CommandView::Put { key, value }, total))
                        }
                    }
                } else {
                    Some((CommandView::Remove { key }, total))
                }
            }
        }
    }
}

/// Round trip at an arbitrary position: a frame appended to any prefix
/// decodes, at the offset where it was appended, back to the record it
/// encodes, consuming exactly the frame.
pub proof fn lemma_decode_encode_at(prefix: Seq<u8>, c: CommandView)
    requires
        c.valid(),
    ensures
        spec_decode_at(prefix + c.encode(), prefix.len() as int) == Some((c, c.encoded_len())),
{
    lemma_auto_spec_u64_to_from_le_bytes();
    let data = prefix + c.encode();
    let p = prefix.len() as int;
    let enc = c.encode();
    let total_u = c.encoded_len() as u64;
    match c {
        CommandView::Put { key, value } => {
            let h0 = spec_u64_to_le_bytes(total_u);
            let h2 = spec_u64_to_le_bytes(key.len() as u64);
            let h3 = spec_u64_to_le_bytes(value.len() as u64);
            let klen = key.len() as int;
            let vlen = value.len() as int;
            assert(h0.len() == 8 && h2.len() == 8 && h3.len() == 8);
            assert(enc.len() == c.encoded_len());
            assert(data.subrange(p, p + 8) =~= h0);
            assert(spec_u64_at(data, p) == total_u);
            assert(data[p + 8] == TAG_SET);
            assert(data.subrange(p + 9, p + 17) =~= h2);
            assert(spec_u64_at(data, p + 9) == key.len() as u64);
            assert(data.subrange(p + 17, p + 17 + klen) =~= key);
            assert(data.subrange(p + 17 + klen, p + 17 + klen + 8) =~= h3);
            assert(spec_u64_at(data, p + 17 + klen) == value.len() as u64);
            assert(data.subrange(p + 25 + klen, p + 25 + klen + vlen) =~= value);
        }
        CommandView::Remove { key } => {
            let h0 = spec_u64_to_le_bytes(total_u);
            let h2 = spec_u64_to_le_bytes(key.len() as u64);
            let klen = key.len() as int;
            assert(h0.len() == 8 && h2.len() == 8);
            assert(enc.len() == c.encoded_len());
            assert(data.subrange(p, p + 8) =~= h0);
            assert(spec_u64_at(data, p) == total_u);
            assert(data[p + 8] == TAG_REMOVE);
            assert(data.subrange(p + 9, p + 17) =~= h2);
            assert(spec_u64_at(data, p + 9) == key.len() as u64);
            assert(data.subrange(p + 17, p + 17 + klen) =~= key);
        }
    }
}

/// Round trip: decoding an encoded record from its start yields the record
/// back, consuming exactly its frame.
pub proof fn lemma_decode_encode(c: CommandView)
    requires
        c.valid(),
    ensures
        spec_decode_at(c.encode(), 0) == Some((c, c.encoded_len())),
{
    lemma_decode_encode_at(Seq::<u8>::empty(), c);
    assert(Seq::<u8>::empty() + c.encode() =~= c.encode());
}

/// A frame that decodes within `data` decodes the same after any bytes are
/// appended behind it: decoding reads nothing past the frame's declared
/// total length.
pub proof fn lemma_decode_at_append(data: Seq<u8>, ext: Seq<u8>, pos: int)
    requires
        spec_decode_at(data, pos) is Some,
    ensures
        spec_decode_at(data + ext, pos) == spec_decode_at(data, pos),
{
    let whole = data + ext;
    let total = spec_u64_at(data, pos) as int;
    assert(whole.subrange(pos, pos + 8) =~= data.subrange(pos, pos + 8));
    assert(spec_u64_at(whole, pos) == spec_u64_at(data, pos));
    assert(whole[pos + 8] == data[pos + 8]);
    assert(whole.subrange(pos + 9, pos + 17) =~= data.subrange(pos + 9, pos + 17));
    assert(spec_u64_at(whole, pos + 9) == spec_u64_at(data, pos + 9));
    let klen = spec_u64_at(data, pos + 9) as int;
    if klen <= total - FRAME_HEADER_LEN {
        assert(whole.subrange(pos + 17, pos + 17 + klen) =~= data.subrange(
            pos + 17,
            pos + 17 + klen,
        ));
        if data[pos + 8] == TAG_SET && klen <= total - SET_OVERHEAD_LEN {
            assert(whole.subrange(pos + 17 + klen, pos + 17 + klen + 8) =~= data.subrange(
                pos + 17 + klen,
                pos + 17 + klen + 8,
            ));
            assert(spec_u64_at(whole, pos + 17 + klen) == spec_u64_at(data, pos + 17 + klen));
            let vlen = spec_u64_at(data, pos + 17 + klen) as int;
            if vlen <= total - SET_OVERHEAD_LEN - klen {
                assert(whole.subrange(pos + 25 + klen, pos + 25 + klen + vlen) =~= data.subrange(
                    pos + 25 + klen,
                    pos + 25 + klen + vlen,
                ));
            }
        }
    }
}

/// Copy of `v`'s bytes.
pub fn copy_bytes(v: &Vec<u8>) -> (out: Vec<u8>)
    ensures
        out@ == v@,
{
    slice_to_vec(v.as_slice())
}

/// The u64 stored little-endian at `data[pos .. pos + 8]`.
fn u64_at(data: &Vec<u8>, pos: usize) -> (x: u64)
    requires
        pos + 8 <= data@.len(),
    ensures
        x == spec_u64_at(data@, pos as int),
{
    // materialize the vector's length so `pos + 8` is known not to overflow
    let _n = data.len();
    let s = slice_subrange(data.as_slice(), pos, pos + 8);
    u64_from_le_bytes(s)
}

/// Copy of `data[pos .. pos + n]`.
fn copy_range(data: &Vec<u8>, pos: usize, n: usize) -> (out: Vec<u8>)
    requires
        pos + n <= data@.len(),
    ensures
        out@ == data@.subrange(pos as int, pos + n),
{
    // materialize the vector's length so `pos + n` is known not to overflow
    let _len = data.len();
    let s = slice_subrange(data.as_slice(), pos, pos + n);
    slice_to_vec(s)
}

impl Command {
    /// Serialize the record into its wire frame.
    pub fn parse(&self) -> (res: Vec<u8>)
        requires
            self@.valid(),
        ensures
            res@ == self@.encode(),
            res@.len() == self@.encoded_len(),
    {
        match self {
            Command::Put { key, value } => {
                let total: u64 = 25u64 + key.len() as u64 + value.len() as u64;
                let mut res = u64_to_le_bytes(total);
                res.push(TAG_SET);
                let mut field = u64_to_le_bytes(key.len() as u64);
                res.append(&mut field);
                let mut bytes = copy_bytes(key);
                res.append(&mut bytes);
                let mut field = u64_to_le_bytes(value.len() as u64);
                res.append(&mut field);
                let mut bytes = copy_bytes(value);
                res.append(&mut bytes);
                proof {
                    assert(res@ =~= self@.encode());
                }
                res
            }
            Command::Remove { key } => {
                let total: u64 = 17u64 + key.len() as u64;
                let mut res = u64_to_le_bytes(total);
                res.push(TAG_REMOVE);
                let mut field = u64_to_le_bytes(key.len() as u64);
                res.append(&mut field);
                let mut bytes = copy_bytes(key);
                res.append(&mut bytes);
                proof {
                    assert(res@ =~= self@.encode());
                }
                res
            }
        }
    }

    /// Decode the frame at `pos` in `data`, returning the record and the
    /// frame's total length, or `MalformedRecord` if the embedded lengths
    /// do not fit the bytes that are there.
    pub fn decode(data: &Vec<u8>, pos: usize) -> (res: KVResult<(Command, usize)>)
        ensures
            match spec_decode_at(data@, pos as int) {
                Some((c, t)) => {
                    &&& res matches Ok((rc, rt))
                    &&& rc@ == c
                    &&& rt == t
                },
                None => res == Err::<(Command, usize), KVError>(KVError::MalformedRecord),
            },
    {
        if pos > data.len() || data.len() - pos < 8 {
            return Err(KVError::MalformedRecord);
        }
        let total = u64_at(data, pos);
        if total < 17 {
            return Err(KVError::MalformedRecord);
        }
        if total > (data.len() - pos) as u64 {
            return Err(KVError::MalformedRecord);
        }
        let total_us = total as usize;
        let tag = data[pos + 8];
        let klen64 = u64_at(data, pos + 9);
        if klen64 > total - 17 {
            return Err(KVError::MalformedRecord);
        }
        let klen = klen64 as usize;
        let key = copy_range(data, pos + 17, klen);
        if tag == TAG_SET {
            if total < 25 || klen64 > total - 25 {
                return Err(KVError::MalformedRecord);
            }
            let vlen64 = u64_at(data, pos + 17 + klen);
            if vlen64 > total - 25 - klen64 {
                return Err(KVError::MalformedRecord);
            }
            let vlen = vlen64 as usize;
            let value = copy_range(data, pos + 25 + klen, vlen);
            Ok((Command::Put { key, value }, total_us))
        } else {
            Ok((Command::Remove { key }, total_us))
        }
    }
}

} // verus!
