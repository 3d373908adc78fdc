//! The GGUF container: header, metadata and tensor index.
//!
//! A file is the magic number, the format version, the number of tensors and of metadata
//! entries, the entries, one record per tensor, padding, and the tensor data. The spec
//! functions of this module say what a byte sequence holds at a position; the executable
//! functions read exactly that.

use vstd::hash_map::StringHashMap;
use vstd::prelude::*;
use vstd::slice::{slice_subrange, slice_to_vec};
use vstd::utf8::{decode_utf8, valid_utf8};

use crate::bytes::{le_nat, u16_at, u32_at, u64_at};

verus! {

/// The letters `G`, `G`, `U`, `F` as a little-endian integer.
pub const GGUF_MAGIC: u32 = 0x46554747;

/// Longest string, in bytes, and longest array, in items, that a file may hold.
pub const MAX_LEN: u64 = 1_000_000;

/// Alignment of the tensor data where the metadata names none.
pub const DEFAULT_ALIGNMENT: u32 = 32;

/// Why a model file was refused.
#[derive(Debug, PartialEq, Eq)]
pub enum GGUFError {
    /// The input ended before the value that was due.
    Io,
    /// A string is not UTF-8.
    Utf8,
    /// The input does not start with the magic number.
    InvalidMagic,
    UnsupportedVersion(u32),
    UnknownMetadataType(u32),
    InvalidBool(u8),
    /// A length or an offset is beyond what can be handled.
    TooLarge { what: &'static str, len: u64 },
    TensorNotFound,
    /// The metadata asks for an alignment of zero.
    InvalidAlignment,
    /// The dimensions of a tensor cannot be handled, or do not go with its encoding or its use.
    InvalidShape,
    /// The data of a tensor reaches beyond the end of the file.
    OutOfBounds,
    /// There is no decoder for this type of tensor.
    UnsupportedType(u32),
}

/// A metadata value. Floating point values are held as their IEEE 754 encodings.
#[derive(Debug)]
pub enum MetadataValue {
    U8(u8),
    I8(i8),
    U16(u16),
    I16(i16),
    U32(u32),
    I32(i32),
    F32(u32),
    Bool(bool),
    Str(String),
    Array(Vec<MetadataValue>),
    U64(u64),
    I64(i64),
    F64(u64),
}

/// What a [`MetadataValue`] stands for.
pub enum Value {
    U8(u8),
    I8(i8),
    U16(u16),
    I16(i16),
    U32(u32),
    I32(i32),
    F32(u32),
    Bool(bool),
    Str(Seq<char>),
    Array(Seq<Value>),
    U64(u64),
    I64(i64),
    F64(u64),
}

pub open spec fn value_of(v: MetadataValue) -> Value
    decreases v,
{
    match v {
        MetadataValue::U8(n) => Value::U8(n),
        MetadataValue::I8(n) => Value::I8(n),
        MetadataValue::U16(n) => Value::U16(n),
        MetadataValue::I16(n) => Value::I16(n),
        MetadataValue::U32(n) => Value::U32(n),
        MetadataValue::I32(n) => Value::I32(n),
        MetadataValue::F32(n) => Value::F32(n),
        MetadataValue::Bool(n) => Value::Bool(n),
        MetadataValue::Str(s) => Value::Str(s@),
        MetadataValue::Array(items) => Value::Array(
            Seq::new(
                items@.len(),
                |i: int|
                    if 0 <= i < items@.len() {
                        value_of(items@[i])
                    } else {
                        arbitrary()
                    },
            ),
        ),
        MetadataValue::U64(n) => Value::U64(n),
        MetadataValue::I64(n) => Value::I64(n),
        MetadataValue::F64(n) => Value::F64(n),
    }
}

impl Clone for MetadataValue {
    fn clone(&self) -> (r: Self)
        ensures
            r@ == self@,
        decreases self,
    {
        match self {
            MetadataValue::U8(n) => MetadataValue::U8(*n),
            MetadataValue::I8(n) => MetadataValue::I8(*n),
            MetadataValue::U16(n) => MetadataValue::U16(*n),
            MetadataValue::I16(n) => MetadataValue::I16(*n),
            MetadataValue::U32(n) => MetadataValue::U32(*n),
            MetadataValue::I32(n) => MetadataValue::I32(*n),
            MetadataValue::F32(n) => MetadataValue::F32(*n),
            MetadataValue::Bool(n) => MetadataValue::Bool(*n),
            MetadataValue::Str(s) => MetadataValue::Str(s.clone()),
            MetadataValue::Array(items) => {
                let mut copies: Vec<MetadataValue> = Vec::with_capacity(items.len());
                let mut i: usize = 0;
                while i < items.len()
                    invariant
                        self == MetadataValue::Array(*items),
                        i <= items@.len(),
                        copies@.len() == i,
                        forall|k: int| 0 <= k < i ==> (#[trigger] copies@[k])@ == items@[k]@,
                    decreases items@.len() - i,
                {
                    assert(decreases_to!(self => self->Array_0));
                    assert(decreases_to!(self->Array_0 => self->Array_0@));
                    assert(decreases_to!(self->Array_0@ => self->Array_0@[i as int]));
                    let copy = items[i].clone();
                    copies.push(copy);
                    i += 1;
                }
                let r = MetadataValue::Array(copies);
                assert(r@->Array_0 =~= self@->Array_0);
                r
            },
            MetadataValue::U64(n) => MetadataValue::U64(*n),
            MetadataValue::I64(n) => MetadataValue::I64(*n),
            MetadataValue::F64(n) => MetadataValue::F64(*n),
        }
    }
}

impl View for MetadataValue {
    type V = Value;

    open spec fn view(&self) -> Value {
        value_of(*self)
    }
}

/// The values of a list of items.
pub open spec fn values_of(items: Seq<MetadataValue>) -> Seq<Value> {
    items.map_values(|v: MetadataValue| v@)
}

/// What reading at some position gives: a value and the position behind it, or an error.
pub type Parsed<A> = Result<(A, int), GGUFError>;

/// `rest` with the items of `done` in front.
pub open spec fn prepend<A>(done: Seq<A>, rest: Parsed<Seq<A>>) -> Parsed<Seq<A>> {
    match rest {
        Ok((items, end)) => Ok((done + items, end)),
        Err(e) => Err(e),
    }
}

/// The unsigned integer in the `width` bytes at `pos`.
pub open spec fn uint_at(b: Seq<u8>, pos: int, width: int) -> Parsed<nat> {
    if pos + width <= b.len() {
        Ok((le_nat(b.subrange(pos, pos + width)), pos + width))
    } else {
        Err(GGUFError::Io)
    }
}

/// The string at `pos`: its length in bytes, then its UTF-8 encoding.
pub open spec fn string_at(b: Seq<u8>, pos: int) -> Parsed<Seq<char>> {
    match uint_at(b, pos, 8) {
        Err(e) => Err(e),
        Ok((len, start)) => if len > MAX_LEN {
            Err(GGUFError::TooLarge { what: "string", len: len as u64 })
        } else if start + len > b.len() {
            Err(GGUFError::Io)
        } else if !valid_utf8(b.subrange(start, start + len)) {
            Err(GGUFError::Utf8)
        } else {
            Ok((decode_utf8(b.subrange(start, start + len)), start + len))
        },
    }
}

/// The two's complement reading of a number of `range` different patterns.
pub open spec fn twos_complement(n: nat, range: int) -> int {
    if n < range / 2 {
        n as int
    } else {
        n - range
    }
}

/// Number of bytes of a value that is neither a string nor an array.
pub open spec fn scalar_width(tag: u32) -> int {
    if tag == 0 || tag == 1 || tag == 7 {
        1
    } else if tag == 2 || tag == 3 {
        2
    } else if tag == 4 || tag == 5 || tag == 6 {
        4
    } else {
        8
    }
}

/// The value of type `tag`, neither a string nor an array, whose bytes encode `n`.
pub open spec fn scalar_value(tag: u32, n: nat) -> Result<Value, GGUFError> {
    if tag == 0 {
        Ok(Value::U8(n as u8))
    } else if tag == 1 {
        Ok(Value::I8(twos_complement(n, 0x100) as i8))
    } else if tag == 2 {
        Ok(Value::U16(n as u16))
    } else if tag == 3 {
        Ok(Value::I16(twos_complement(n, 0x1_0000) as i16))
    } else if tag == 4 {
        Ok(Value::U32(n as u32))
    } else if tag == 5 {
        Ok(Value::I32(twos_complement(n, 0x1_0000_0000) as i32))
    } else if tag == 6 {
        Ok(Value::F32(n as u32))
    } else if tag == 7 {
        if n == 0 {
            Ok(Value::Bool(false))
        } else if n == 1 {
            Ok(Value::Bool(true))
        } else {
            Err(GGUFError::InvalidBool(n as u8))
        }
    } else if tag == 10 {
        Ok(Value::U64(n as u64))
    } else if tag == 11 {
        Ok(Value::I64(twos_complement(n, 0x1_0000_0000_0000_0000) as i64))
    } else {
        Ok(Value::F64(n as u64))
    }
}

/// The value of type `tag` at `pos`.
pub open spec fn value_at(b: Seq<u8>, pos: int, tag: u32) -> Parsed<Value>
    decreases b.len() - pos, 0int,
{
    if tag == 8 {
        match string_at(b, pos) {
            Err(e) => Err(e),
            Ok((s, end)) => Ok((Value::Str(s), end)),
        }
    } else if tag == 9 {
        match uint_at(b, pos, 4) {
            Err(e) => Err(e),
            Ok((item_tag, p)) => match uint_at(b, p, 8) {
                Err(e) => Err(e),
                Ok((count, start)) => if count > MAX_LEN {
                    Err(GGUFError::TooLarge { what: "array", len: count as u64 })
                } else {
                    match values_at(b, start, item_tag as u32, count) {
                        Err(e) => Err(e),
                        Ok((items, end)) => Ok((Value::Array(items), end)),
                    }
                },
            },
        }
    } else if tag <= 12 {
        match uint_at(b, pos, scalar_width(tag)) {
            Err(e) => Err(e),
            Ok((n, end)) => match scalar_value(tag, n) {
                Err(e) => Err(e),
                Ok(v) => Ok((v, end)),
            },
        }
    } else {
        Err(GGUFError::UnknownMetadataType(tag))
    }
}

/// The `n` values of type `tag` that stand one behind the other from `pos` on.
pub open spec fn values_at(b: Seq<u8>, pos: int, tag: u32, n: nat) -> Parsed<Seq<Value>>
    decreases b.len() - pos, 1int,
{
    if n == 0 {
        Ok((Seq::empty(), pos))
    } else {
        match value_at(b, pos, tag) {
            Err(e) => Err(e),
            Ok((v, next)) => if pos < next <= b.len() {
                prepend(seq![v], values_at(b, next, tag, (n - 1) as nat))
            } else {
                // Never reached: a value takes at least one byte.
                Err(GGUFError::Io)
            },
        }
    }
}

/// The type tag at `pos` and the value of that type behind it.
pub open spec fn tagged_value_at(b: Seq<u8>, pos: int) -> Parsed<Value> {
    match uint_at(b, pos, 4) {
        Err(e) => Err(e),
        Ok((tag, p)) => value_at(b, p, tag as u32),
    }
}

/// A metadata entry: its key and its value.
pub open spec fn entry_at(b: Seq<u8>, pos: int) -> Parsed<(Seq<char>, Value)> {
    match string_at(b, pos) {
        Err(e) => Err(e),
        Ok((key, p)) => match tagged_value_at(b, p) {
            Err(e) => Err(e),
            Ok((v, end)) => Ok(((key, v), end)),
        },
    }
}

/// The `n` metadata entries from `pos` on.
pub open spec fn entries_at(b: Seq<u8>, pos: int, n: nat) -> Parsed<Seq<(Seq<char>, Value)>>
    decreases n,
{
    if n == 0 {
        Ok((Seq::empty(), pos))
    } else {
        match entry_at(b, pos) {
            Err(e) => Err(e),
            Ok((entry, next)) => prepend(seq![entry], entries_at(b, next, (n - 1) as nat)),
        }
    }
}

/// The map that a list of entries describes: of two entries with one key the later counts.
pub open spec fn entry_map(entries: Seq<(Seq<char>, Value)>) -> Map<Seq<char>, Value>
    decreases entries.len(),
{
    if entries.len() == 0 {
        Map::empty()
    } else {
        entry_map(entries.drop_last()).insert(entries.last().0, entries.last().1)
    }
}


/// A value lies inside the bytes and takes at least one of them.
pub proof fn lemma_value_extent(b: Seq<u8>, pos: int, tag: u32)
    requires
        0 <= pos,
    ensures
        value_at(b, pos, tag) matches Ok((v, end)) ==> pos < end <= b.len(),
    decreases b.len() - pos, 0int,
{
    if tag == 9 {
        if let Ok((item_tag, p)) = uint_at(b, pos, 4) {
            if let Ok((count, start)) = uint_at(b, p, 8) {
                lemma_values_extent(b, start, item_tag as u32, count);
            }
        }
    }
}

/// A run of values lies inside the bytes.
pub proof fn lemma_values_extent(b: Seq<u8>, pos: int, tag: u32, n: nat)
    requires
        0 <= pos <= b.len(),
    ensures
        values_at(b, pos, tag, n) matches Ok((vs, end)) ==> pos <= end <= b.len() && vs.len() == n,
    decreases b.len() - pos, 1int,
{
    if n > 0 {
        lemma_value_extent(b, pos, tag);
        if let Ok((v, next)) = value_at(b, pos, tag) {
            lemma_values_extent(b, next, tag, (n - 1) as nat);
        }
    }
}

/// The error that `String::from_utf8` reports.
#[verifier::external_type_specification]
#[verifier::external_body]
pub struct ExFromUtf8Error(std::string::FromUtf8Error);

/// `String::from_utf8`: the characters that the bytes encode, or an error where the bytes are
/// not UTF-8.
pub assume_specification[ String::from_utf8 ](vec: Vec<u8>) -> (r: Result<
    String,
    std::string::FromUtf8Error,
>)
    ensures
        match r {
            Ok(s) => valid_utf8(vec@) && s@ == decode_utf8(vec@),
            Err(_) => !valid_utf8(vec@),
        },
;

fn read_u8(bytes: &[u8], pos: usize) -> (r: Result<(u8, usize), GGUFError>)
    requires
        pos <= bytes@.len(),
    ensures
        match r {
            Ok((n, end)) => uint_at(bytes@, pos as int, 1) == Parsed::<nat>::Ok(
                (n as nat, end as int),
            ),
            Err(e) => uint_at(bytes@, pos as int, 1) == Parsed::<nat>::Err(e),
        },
{
    if bytes.len() - pos < 1 {
        return Err(GGUFError::Io);
    }
    proof {
        let field = bytes@.subrange(pos as int, pos + 1);
        reveal_with_fuel(le_nat, 2);
        assert(field.skip(1).len() == 0);
    }
    Ok((bytes[pos], pos + 1))
}

fn read_u16(bytes: &[u8], pos: usize) -> (r: Result<(u16, usize), GGUFError>)
    requires
        pos <= bytes@.len(),
    ensures
        match r {
            Ok((n, end)) => uint_at(bytes@, pos as int, 2) == Parsed::<nat>::Ok(
                (n as nat, end as int),
            ),
            Err(e) => uint_at(bytes@, pos as int, 2) == Parsed::<nat>::Err(e),
        },
{
    if bytes.len() - pos < 2 {
        return Err(GGUFError::Io);
    }
    Ok((u16_at(bytes, pos), pos + 2))
}

fn read_u32(bytes: &[u8], pos: usize) -> (r: Result<(u32, usize), GGUFError>)
    requires
        pos <= bytes@.len(),
    ensures
        match r {
            Ok((n, end)) => uint_at(bytes@, pos as int, 4) == Parsed::<nat>::Ok(
                (n as nat, end as int),
            ),
            Err(e) => uint_at(bytes@, pos as int, 4) == Parsed::<nat>::Err(e),
        },
{
    if bytes.len() - pos < 4 {
        return Err(GGUFError::Io);
    }
    Ok((u32_at(bytes, pos), pos + 4))
}

fn read_u64(bytes: &[u8], pos: usize) -> (r: Result<(u64, usize), GGUFError>)
    requires
        pos <= bytes@.len(),
    ensures
        match r {
            Ok((n, end)) => uint_at(bytes@, pos as int, 8) == Parsed::<nat>::Ok(
                (n as nat, end as int),
            ),
            Err(e) => uint_at(bytes@, pos as int, 8) == Parsed::<nat>::Err(e),
        },
{
    if bytes.len() - pos < 8 {
        return Err(GGUFError::Io);
    }
    Ok((u64_at(bytes, pos), pos + 8))
}

/// Reads the string at `pos`.
pub fn read_string(bytes: &[u8], pos: usize) -> (r: Result<(String, usize), GGUFError>)
    requires
        pos <= bytes@.len(),
    ensures
        match r {
            Ok((s, end)) => string_at(bytes@, pos as int) == Parsed::<Seq<char>>::Ok(
                (s@, end as int),
            ),
            Err(e) => string_at(bytes@, pos as int) == Parsed::<Seq<char>>::Err(e),
        },
{
    let (len, start) = match read_u64(bytes, pos) {
        Ok(r) => r,
        Err(e) => return Err(e),
    };
    if len > MAX_LEN {
        return Err(GGUFError::TooLarge { what: "string", len });
    }
    let len: usize = len as usize;
    if bytes.len() - start < len {
        return Err(GGUFError::Io);
    }
    let raw = slice_to_vec(slice_subrange(bytes, start, start + len));
    match String::from_utf8(raw) {
        Ok(s) => Ok((s, start + len)),
        Err(_) => Err(GGUFError::Utf8),
    }
}

/// Reads the type tag at `pos` and the value behind it.
pub fn read_metadata_value(bytes: &[u8], pos: usize) -> (r: Result<
    (MetadataValue, usize),
    GGUFError,
>)
    requires
        pos <= bytes@.len(),
    ensures
        match r {
            Ok((v, end)) => tagged_value_at(bytes@, pos as int) == Parsed::<Value>::Ok(
                (v@, end as int),
            ),
            Err(e) => tagged_value_at(bytes@, pos as int) == Parsed::<Value>::Err(e),
        },
{
    match read_u32(bytes, pos) {
        Ok((tag, start)) => read_value_of_type(bytes, start, tag),
        Err(e) => Err(e),
    }
}

/// Reads the value of type `tag` at `pos`.
pub fn read_value_of_type(bytes: &[u8], pos: usize, tag: u32) -> (r: Result<
    (MetadataValue, usize),
    GGUFError,
>)
    requires
        pos <= bytes@.len(),
    ensures
        match r {
            Ok((v, end)) => value_at(bytes@, pos as int, tag) == Parsed::<Value>::Ok(
                (v@, end as int),
            ),
            Err(e) => value_at(bytes@, pos as int, tag) == Parsed::<Value>::Err(e),
        },
    decreases bytes@.len() - pos, 0int,
{
    match tag {
        0 => match read_u8(bytes, pos) {
            Ok((n, end)) => Ok((MetadataValue::U8(n), end)),
            Err(e) => Err(e),
        },
        1 => match read_u8(bytes, pos) {
            Ok((n, end)) => {
                assert(n as i8 == (if n < 0x80 { n as int } else { n - 0x100 })) by (bit_vector);
                Ok((MetadataValue::I8(n as i8), end))
            },
            Err(e) => Err(e),
        },
        2 => match read_u16(bytes, pos) {
            Ok((n, end)) => Ok((MetadataValue::U16(n), end)),
            Err(e) => Err(e),
        },
        3 => match read_u16(bytes, pos) {
            Ok((n, end)) => {
                assert(n as i16 == (if n < 0x8000 { n as int } else { n - 0x1_0000 }))
                    by (bit_vector);
                Ok((MetadataValue::I16(n as i16), end))
            },
            Err(e) => Err(e),
        },
        4 => match read_u32(bytes, pos) {
            Ok((n, end)) => Ok((MetadataValue::U32(n), end)),
            Err(e) => Err(e),
        },
        5 => match read_u32(bytes, pos) {
            Ok((n, end)) => {
                assert(n as i32 == (if n < 0x8000_0000 { n as int } else { n - 0x1_0000_0000 }))
                    by (bit_vector);
                Ok((MetadataValue::I32(n as i32), end))
            },
            Err(e) => Err(e),
        },
        6 => match read_u32(bytes, pos) {
            Ok((n, end)) => Ok((MetadataValue::F32(n), end)),
            Err(e) => Err(e),
        },
        7 => match read_u8(bytes, pos) {
            Ok((n, end)) => if n == 0 {
                Ok((MetadataValue::Bool(false), end))
            } else if n == 1 {
                Ok((MetadataValue::Bool(true), end))
            } else {
                Err(GGUFError::InvalidBool(n))
            },
            Err(e) => Err(e),
        },
        8 => match read_string(bytes, pos) {
            Ok((s, end)) => Ok((MetadataValue::Str(s), end)),
            Err(e) => Err(e),
        },
        9 => {
            let (item_tag, p) = match read_u32(bytes, pos) {
                Ok(r) => r,
                Err(e) => return Err(e),
            };
            let (count, start) = match read_u64(bytes, p) {
                Ok(r) => r,
                Err(e) => return Err(e),
            };
            if count > MAX_LEN {
                return Err(GGUFError::TooLarge { what: "array", len: count });
            }
            match read_values(bytes, start, item_tag, count) {
                Ok((items, end)) => {
                    let array = MetadataValue::Array(items);
                    assert(array@->Array_0 =~= values_of(items@));
                    Ok((array, end))
                },
                Err(e) => Err(e),
            }
        },
        10 => match read_u64(bytes, pos) {
            Ok((n, end)) => Ok((MetadataValue::U64(n), end)),
            Err(e) => Err(e),
        },
        11 => match read_u64(bytes, pos) {
            Ok((n, end)) => {
                assert(n as i64 == (if n < 0x8000_0000_0000_0000 {
                    n as int
                } else {
                    n - 0x1_0000_0000_0000_0000
                })) by (bit_vector);
                Ok((MetadataValue::I64(n as i64), end))
            },
            Err(e) => Err(e),
        },
        12 => match read_u64(bytes, pos) {
            Ok((n, end)) => Ok((MetadataValue::F64(n), end)),
            Err(e) => Err(e),
        },
        _ => Err(GGUFError::UnknownMetadataType(tag)),
    }
}

/// Reads the `count` values of type `tag` from `start` on.
fn read_values(bytes: &[u8], start: usize, tag: u32, count: u64) -> (r: Result<
    (Vec<MetadataValue>, usize),
    GGUFError,
>)
    requires
        start <= bytes@.len(),
    ensures
        match r {
            Ok((items, end)) => values_at(bytes@, start as int, tag, count as nat) == Parsed::<
                Seq<Value>,
            >::Ok((values_of(items@), end as int)),
            Err(e) => values_at(bytes@, start as int, tag, count as nat) == Parsed::<
                Seq<Value>,
            >::Err(e),
        },
    decreases bytes@.len() - start, 1int,
{
    let mut items: Vec<MetadataValue> = Vec::new();
    let mut pos: usize = start;
    let mut i: u64 = 0;
    assert(values_of(items@) =~= Seq::empty());
    assert(prepend(
        Seq::<Value>::empty(),
        values_at(bytes@, start as int, tag, count as nat),
    ) =~= values_at(bytes@, start as int, tag, count as nat));
    while i < count
        invariant
            i <= count,
            start <= pos <= bytes@.len(),
            values_at(bytes@, start as int, tag, count as nat) == prepend(
                values_of(items@),
                values_at(bytes@, pos as int, tag, (count - i) as nat),
            ),
        decreases count - i,
    {
        let ghost before = values_of(items@);
        match read_value_of_type(bytes, pos, tag) {
            Ok((v, next)) => {
                proof {
                    lemma_value_extent(bytes@, pos as int, tag);
                    if let Ok((rest, end)) = values_at(
                        bytes@,
                        next as int,
                        tag,
                        (count - i - 1) as nat,
                    ) {
                        assert(before + (seq![v@] + rest) =~= before.push(v@) + rest);
                    }
                    assert(values_of(items@.push(v)) =~= before.push(v@));
                }
                items.push(v);
                pos = next;
            },
            Err(e) => return Err(e),
        }
        i += 1;
    }
    assert(values_of(items@) + Seq::<Value>::empty() =~= values_of(items@));
    Ok((items, pos))
}


/// What the index of a file says about one tensor, with its position in the file.
#[derive(Debug)]
pub struct TensorInfo {
    pub name: String,
    /// Outermost dimension first.
    pub shape: Vec<u64>,
    pub ggml_type: u32,
    /// Offset from the start of the tensor data.
    pub data_offset: u64,
    /// Offset from the start of the file.
    pub file_offset: u64,
}

/// What a [`TensorInfo`] stands for.
pub struct TensorRecord {
    pub name: Seq<char>,
    pub shape: Seq<u64>,
    pub ggml_type: u32,
    pub data_offset: u64,
    pub file_offset: u64,
}

impl Clone for TensorInfo {
    fn clone(&self) -> (r: Self)
        ensures
            r@ == self@,
    {
        TensorInfo {
            name: self.name.clone(),
            shape: slice_to_vec(self.shape.as_slice()),
            ggml_type: self.ggml_type,
            data_offset: self.data_offset,
            file_offset: self.file_offset,
        }
    }
}

impl View for TensorInfo {
    type V = TensorRecord;

    open spec fn view(&self) -> TensorRecord {
        TensorRecord {
            name: self.name@,
            shape: self.shape@,
            ggml_type: self.ggml_type,
            data_offset: self.data_offset,
            file_offset: self.file_offset,
        }
    }
}

/// A parsed file, without the tensor data.
pub struct GGUFFile {
    pub version: u32,
    pub tensor_count: u64,
    pub metadata_kv_count: u64,
    pub metadata: StringHashMap<MetadataValue>,
    pub tensors: Vec<TensorInfo>,
    /// Offset in the file where the tensor data begins.
    pub tensor_data_start: u64,
    pub alignment: u64,
}

/// What a [`GGUFFile`] stands for.
#[verifier::ext_equal]
pub struct FileRecord {
    pub version: u32,
    pub tensor_count: u64,
    pub metadata_kv_count: u64,
    pub metadata: Map<Seq<char>, Value>,
    pub tensors: Seq<TensorRecord>,
    pub tensor_data_start: u64,
    pub alignment: u64,
}

/// The values of a map of metadata.
pub open spec fn metadata_of(m: Map<Seq<char>, MetadataValue>) -> Map<Seq<char>, Value> {
    m.map_values(|v: MetadataValue| v@)
}

/// The records of a list of tensors.
pub open spec fn records_of(infos: Seq<TensorInfo>) -> Seq<TensorRecord> {
    infos.map_values(|t: TensorInfo| t@)
}

impl View for GGUFFile {
    type V = FileRecord;

    open spec fn view(&self) -> FileRecord {
        FileRecord {
            version: self.version,
            tensor_count: self.tensor_count,
            metadata_kv_count: self.metadata_kv_count,
            metadata: metadata_of(self.metadata@),
            tensors: records_of(self.tensors@),
            tensor_data_start: self.tensor_data_start,
            alignment: self.alignment,
        }
    }
}

/// What stands in front of the metadata.
pub struct Header {
    pub version: u32,
    pub tensor_count: u64,
    pub metadata_kv_count: u64,
}

/// The header at the start of `b`: magic number, version from 1 to 3, and the two counts.
pub open spec fn header_in(b: Seq<u8>) -> Parsed<Header> {
    match uint_at(b, 0, 4) {
        Err(e) => Err(e),
        Ok((magic, p)) => if magic != GGUF_MAGIC {
            Err(GGUFError::InvalidMagic)
        } else {
            match uint_at(b, p, 4) {
                Err(e) => Err(e),
                Ok((version, p)) => if !(1 <= version <= 3) {
                    Err(GGUFError::UnsupportedVersion(version as u32))
                } else {
                    match uint_at(b, p, 8) {
                        Err(e) => Err(e),
                        Ok((tensors, p)) => match uint_at(b, p, 8) {
                            Err(e) => Err(e),
                            Ok((entries, end)) => Ok(
                                (
                                    Header {
                                        version: version as u32,
                                        tensor_count: tensors as u64,
                                        metadata_kv_count: entries as u64,
                                    },
                                    end,
                                ),
                            ),
                        },
                    }
                },
            }
        },
    }
}

/// The `n` dimensions from `pos` on, in the order of the file: innermost first.
pub open spec fn dims_at(b: Seq<u8>, pos: int, n: nat) -> Parsed<Seq<u64>>
    decreases n,
{
    if n == 0 {
        Ok((Seq::empty(), pos))
    } else {
        match uint_at(b, pos, 8) {
            Err(e) => Err(e),
            Ok((d, next)) => prepend(seq![d as u64], dims_at(b, next, (n - 1) as nat)),
        }
    }
}

/// The tensor record at `pos`: name, number of dimensions, dimensions, type, offset. Its
/// position in the file is not known yet, and `file_offset` is zero.
pub open spec fn record_at(b: Seq<u8>, pos: int) -> Parsed<TensorRecord> {
    match string_at(b, pos) {
        Err(e) => Err(e),
        Ok((name, p)) => match uint_at(b, p, 4) {
            Err(e) => Err(e),
            Ok((n_dims, p)) => match dims_at(b, p, n_dims) {
                Err(e) => Err(e),
                Ok((dims, p)) => match uint_at(b, p, 4) {
                    Err(e) => Err(e),
                    Ok((ggml_type, p)) => match uint_at(b, p, 8) {
                        Err(e) => Err(e),
                        Ok((data_offset, end)) => Ok(
                            (
                                TensorRecord {
                                    name,
                                    shape: dims.reverse(),
                                    ggml_type: ggml_type as u32,
                                    data_offset: data_offset as u64,
                                    file_offset: 0,
                                },
                                end,
                            ),
                        ),
                    },
                },
            },
        },
    }
}

/// The `n` tensor records from `pos` on.
pub open spec fn records_at(b: Seq<u8>, pos: int, n: nat) -> Parsed<Seq<TensorRecord>>
    decreases n,
{
    if n == 0 {
        Ok((Seq::empty(), pos))
    } else {
        match record_at(b, pos) {
            Err(e) => Err(e),
            Ok((record, next)) => prepend(seq![record], records_at(b, next, (n - 1) as nat)),
        }
    }
}

/// The alignment that the metadata asks for.
pub open spec fn alignment_of(metadata: Map<Seq<char>, Value>) -> u32 {
    if metadata.contains_key("general.alignment"@) {
        match metadata["general.alignment"@] {
            Value::U32(n) => n,
            _ => DEFAULT_ALIGNMENT,
        }
    } else {
        DEFAULT_ALIGNMENT
    }
}

/// The least multiple of `alignment` that is not below `offset`.
pub open spec fn aligned(offset: int, alignment: int) -> int {
    (offset + alignment - 1) / alignment * alignment
}

/// The records with their positions in a file whose tensor data begins at `start`, or an error
/// for the first whose position is no 64-bit number.
pub open spec fn placed(records: Seq<TensorRecord>, start: int) -> Result<
    Seq<TensorRecord>,
    GGUFError,
>
    decreases records.len(),
{
    if records.len() == 0 {
        Ok(Seq::empty())
    } else {
        match placed(records.drop_last(), start) {
            Err(e) => Err(e),
            Ok(before) => if start + records.last().data_offset > u64::MAX {
                Err(GGUFError::TooLarge { what: "offset", len: records.last().data_offset })
            } else {
                Ok(
                    before.push(
                        TensorRecord {
                            file_offset: (start + records.last().data_offset) as u64,
                            ..records.last()
                        },
                    ),
                )
            },
        }
    }
}

/// The file that a header, its entries and its records describe, where the records end at
/// `end`.
pub open spec fn file_of(
    header: Header,
    entries: Seq<(Seq<char>, Value)>,
    records: Seq<TensorRecord>,
    end: int,
) -> Result<FileRecord, GGUFError> {
    let metadata = entry_map(entries);
    let alignment = alignment_of(metadata) as int;
    if alignment == 0 {
        Err(GGUFError::InvalidAlignment)
    } else if end + alignment - 1 > u64::MAX {
        Err(GGUFError::TooLarge { what: "index", len: end as u64 })
    } else {
        match placed(records, aligned(end, alignment)) {
            Err(e) => Err(e),
            Ok(tensors) => Ok(
                FileRecord {
                    version: header.version,
                    tensor_count: header.tensor_count,
                    metadata_kv_count: header.metadata_kv_count,
                    metadata,
                    tensors,
                    tensor_data_start: aligned(end, alignment) as u64,
                    alignment: alignment as u64,
                },
            ),
        }
    }
}

/// The file that `b` holds.
pub open spec fn file_in(b: Seq<u8>) -> Result<FileRecord, GGUFError> {
    match header_in(b) {
        Err(e) => Err(e),
        Ok((header, p)) => match entries_at(b, p, header.metadata_kv_count as nat) {
            Err(e) => Err(e),
            Ok((entries, p)) => match records_at(b, p, header.tensor_count as nat) {
                Err(e) => Err(e),
                Ok((records, end)) => file_of(header, entries, records, end),
            },
        },
    }
}

/// The least multiple of `alignment` that is not below `offset`.
pub fn align_offset(offset: u64, alignment: u64) -> (r: u64)
    requires
        alignment > 0,
        offset + alignment - 1 <= u64::MAX,
    ensures
        r == aligned(offset as int, alignment as int),
        r as int % alignment as int == 0,
        offset <= r < offset + alignment,
{
    proof {
        lemma_aligned(offset as int, alignment as int);
    }
    (offset + (alignment - 1)) / alignment * alignment
}

/// `aligned` gives a multiple of the alignment, and the first one from the offset on.
pub proof fn lemma_aligned(offset: int, alignment: int)
    requires
        offset >= 0,
        alignment > 0,
    ensures
        aligned(offset, alignment) % alignment == 0,
        offset <= aligned(offset, alignment) < offset + alignment,
        aligned(offset, alignment) <= offset + alignment - 1,
        forall|m: int|
            #![trigger m % alignment]
            m >= offset && m % alignment == 0 ==> m >= aligned(offset, alignment),
{
    let n = offset + alignment - 1;
    let r = n / alignment * alignment;
    vstd::arithmetic::div_mod::lemma_fundamental_div_mod(n, alignment);
    vstd::arithmetic::mul::lemma_mul_is_commutative(alignment, n / alignment);
    vstd::arithmetic::div_mod::lemma_mod_multiples_basic(n / alignment, alignment);
    assert forall|m: int|
        #![trigger m % alignment]
        m >= offset && m % alignment == 0 implies m >= r by {
        if m < r {
            vstd::arithmetic::div_mod::lemma_fundamental_div_mod(m, alignment);
            let (q, k) = (n / alignment, m / alignment);
            assert(k < q) by (nonlinear_arith)
                requires
                    alignment > 0,
                    alignment * k < q * alignment,
            ;
            assert(alignment * k <= q * alignment - alignment) by (nonlinear_arith)
                requires
                    alignment > 0,
                    k <= q - 1,
            ;
        }
    }
}


/// Reads the header.
fn read_header(bytes: &[u8]) -> (r: Result<(Header, usize), GGUFError>)
    ensures
        match r {
            Ok((h, end)) => header_in(bytes@) == Parsed::<Header>::Ok((h, end as int)) && end
                <= bytes@.len(),
            Err(e) => header_in(bytes@) == Parsed::<Header>::Err(e),
        },
{
    let (magic, p) = match read_u32(bytes, 0) {
        Ok(r) => r,
        Err(e) => return Err(e),
    };
    if magic != GGUF_MAGIC {
        return Err(GGUFError::InvalidMagic);
    }
    let (version, p) = match read_u32(bytes, p) {
        Ok(r) => r,
        Err(e) => return Err(e),
    };
    if version < 1 || version > 3 {
        return Err(GGUFError::UnsupportedVersion(version));
    }
    let (tensor_count, p) = match read_u64(bytes, p) {
        Ok(r) => r,
        Err(e) => return Err(e),
    };
    match read_u64(bytes, p) {
        Ok((metadata_kv_count, end)) => Ok(
            (Header { version, tensor_count, metadata_kv_count }, end),
        ),
        Err(e) => Err(e),
    }
}

/// Reads the `count` metadata entries from `start` on.
fn read_metadata(bytes: &[u8], start: usize, count: u64) -> (r: Result<
    (StringHashMap<MetadataValue>, usize),
    GGUFError,
>)
    requires
        start <= bytes@.len(),
    ensures
        match r {
            Ok((metadata, end)) => {
                &&& end <= bytes@.len()
                &&& entries_at(bytes@, start as int, count as nat) matches Ok((entries, p))
                &&& p == end
                &&& metadata_of(metadata@) == entry_map(entries)
            },
            Err(e) => entries_at(bytes@, start as int, count as nat) == Parsed::<
                Seq<(Seq<char>, Value)>,
            >::Err(e),
        },
{
    let mut metadata: StringHashMap<MetadataValue> = StringHashMap::new();
    let mut pos: usize = start;
    let mut i: u64 = 0;
    let ghost mut done: Seq<(Seq<char>, Value)> = Seq::empty();
    assert(metadata_of(metadata@) =~= entry_map(done));
    assert(prepend(done, entries_at(bytes@, start as int, count as nat)) =~= entries_at(
        bytes@,
        start as int,
        count as nat,
    ));
    while i < count
        invariant
            i <= count,
            pos <= bytes@.len(),
            metadata_of(metadata@) == entry_map(done),
            entries_at(bytes@, start as int, count as nat) == prepend(
                done,
                entries_at(bytes@, pos as int, (count - i) as nat),
            ),
        decreases count - i,
    {
        let (key, p) = match read_string(bytes, pos) {
            Ok(r) => r,
            Err(e) => return Err(e),
        };
        let (value, next) = match read_metadata_value(bytes, p) {
            Ok(r) => r,
            Err(e) => return Err(e),
        };
        proof {
            if let Ok((tag, q)) = uint_at(bytes@, p as int, 4) {
                lemma_value_extent(bytes@, q, tag as u32);
            }
            let entry = (key@, value@);
            if let Ok((rest, end)) = entries_at(bytes@, next as int, (count - i - 1) as nat) {
                assert(done + (seq![entry] + rest) =~= done.push(entry) + rest);
            }
            assert(done.push(entry).drop_last() =~= done);
            assert(metadata_of(metadata@.insert(key@, value)) =~= metadata_of(metadata@).insert(
                key@,
                value@,
            ));
            done = done.push(entry);
        }
        metadata.insert(key, value);
        pos = next;
        i += 1;
    }
    assert(done + Seq::<(Seq<char>, Value)>::empty() =~= done);
    Ok((metadata, pos))
}

/// Reads the `count` dimensions from `start` on.
fn read_dims(bytes: &[u8], start: usize, count: u32) -> (r: Result<(Vec<u64>, usize), GGUFError>)
    requires
        start <= bytes@.len(),
    ensures
        match r {
            Ok((dims, end)) => dims_at(bytes@, start as int, count as nat) == Parsed::<
                Seq<u64>,
            >::Ok((dims@, end as int)) && end <= bytes@.len(),
            Err(e) => dims_at(bytes@, start as int, count as nat) == Parsed::<Seq<u64>>::Err(e),
        },
{
    let mut dims: Vec<u64> = Vec::new();
    let mut pos: usize = start;
    let mut i: u32 = 0;
    assert(prepend(dims@, dims_at(bytes@, start as int, count as nat)) =~= dims_at(
        bytes@,
        start as int,
        count as nat,
    ));
    while i < count
        invariant
            i <= count,
            pos <= bytes@.len(),
            dims_at(bytes@, start as int, count as nat) == prepend(
                dims@,
                dims_at(bytes@, pos as int, (count - i) as nat),
            ),
        decreases count - i,
    {
        match read_u64(bytes, pos) {
            Ok((d, next)) => {
                proof {
                    if let Ok((rest, end)) = dims_at(bytes@, next as int, (count - i - 1) as nat) {
                        assert(dims@ + (seq![d] + rest) =~= dims@.push(d) + rest);
                    }
                }
                dims.push(d);
                pos = next;
            },
            Err(e) => return Err(e),
        }
        i += 1;
    }
    assert(dims@ + Seq::<u64>::empty() =~= dims@);
    Ok((dims, pos))
}

/// The items of `v`, last first.
fn reversed(v: &Vec<u64>) -> (r: Vec<u64>)
    ensures
        r@ == v@.reverse(),
{
    let mut r: Vec<u64> = Vec::new();
    let mut i: usize = v.len();
    while i > 0
        invariant
            i <= v@.len(),
            r@.len() == v@.len() - i,
            forall|k: int| 0 <= k < r@.len() ==> r@[k] == v@[v@.len() - 1 - k],
        decreases i,
    {
        i -= 1;
        r.push(v[i]);
    }
    assert(r@ =~= v@.reverse());
    r
}

/// Reads the tensor record at `start`.
fn read_tensor_info(bytes: &[u8], start: usize) -> (r: Result<(TensorInfo, usize), GGUFError>)
    requires
        start <= bytes@.len(),
    ensures
        match r {
            Ok((t, end)) => record_at(bytes@, start as int) == Parsed::<TensorRecord>::Ok(
                (t@, end as int),
            ) && end <= bytes@.len(),
            Err(e) => record_at(bytes@, start as int) == Parsed::<TensorRecord>::Err(e),
        },
{
    let (name, p) = match read_string(bytes, start) {
        Ok(r) => r,
        Err(e) => return Err(e),
    };
    let (n_dims, p) = match read_u32(bytes, p) {
        Ok(r) => r,
        Err(e) => return Err(e),
    };
    let (dims, p) = match read_dims(bytes, p, n_dims) {
        Ok(r) => r,
        Err(e) => return Err(e),
    };
    let (ggml_type, p) = match read_u32(bytes, p) {
        Ok(r) => r,
        Err(e) => return Err(e),
    };
    match read_u64(bytes, p) {
        Ok((data_offset, end)) => Ok(
            (
                TensorInfo { name, shape: reversed(&dims), ggml_type, data_offset, file_offset: 0 },
                end,
            ),
        ),
        Err(e) => Err(e),
    }
}

/// Reads the `count` tensor records from `start` on.
fn read_tensor_infos(bytes: &[u8], start: usize, count: u64) -> (r: Result<
    (Vec<TensorInfo>, usize),
    GGUFError,
>)
    requires
        start <= bytes@.len(),
    ensures
        match r {
            Ok((infos, end)) => records_at(bytes@, start as int, count as nat) == Parsed::<
                Seq<TensorRecord>,
            >::Ok((records_of(infos@), end as int)) && end <= bytes@.len(),
            Err(e) => records_at(bytes@, start as int, count as nat) == Parsed::<
                Seq<TensorRecord>,
            >::Err(e),
        },
{
    let mut infos: Vec<TensorInfo> = Vec::new();
    let mut pos: usize = start;
    let mut i: u64 = 0;
    assert(records_of(infos@) =~= Seq::empty());
    assert(prepend(
        Seq::<TensorRecord>::empty(),
        records_at(bytes@, start as int, count as nat),
    ) =~= records_at(bytes@, start as int, count as nat));
    while i < count
        invariant
            i <= count,
            pos <= bytes@.len(),
            records_at(bytes@, start as int, count as nat) == prepend(
                records_of(infos@),
                records_at(bytes@, pos as int, (count - i) as nat),
            ),
        decreases count - i,
    {
        let ghost before = records_of(infos@);
        match read_tensor_info(bytes, pos) {
            Ok((t, next)) => {
                proof {
                    if let Ok((rest, end)) = records_at(
                        bytes@,
                        next as int,
                        (count - i - 1) as nat,
                    ) {
                        assert(before + (seq![t@] + rest) =~= before.push(t@) + rest);
                    }
                    assert(records_of(infos@.push(t)) =~= before.push(t@));
                }
                infos.push(t);
                pos = next;
            },
            Err(e) => return Err(e),
        }
        i += 1;
    }
    assert(records_of(infos@) + Seq::<TensorRecord>::empty() =~= records_of(infos@));
    Ok((infos, pos))
}

/// Gives each of the tensors its position in a file whose tensor data begins at `start`.
fn place_tensors(infos: Vec<TensorInfo>, start: u64) -> (r: Result<Vec<TensorInfo>, GGUFError>)
    ensures
        match r {
            Ok(tensors) => placed(records_of(infos@), start as int) == Ok::<
                Seq<TensorRecord>,
                GGUFError,
            >(records_of(tensors@)),
            Err(e) => placed(records_of(infos@), start as int) == Err::<
                Seq<TensorRecord>,
                GGUFError,
            >(e),
        },
{
    let ghost all = records_of(infos@);
    let mut tensors: Vec<TensorInfo> = infos;
    let mut i: usize = 0;
    assert(records_of(tensors@).take(0) =~= Seq::empty());
    while i < tensors.len()
        invariant
            i <= tensors@.len(),
            all == records_of(infos@),
            tensors@.len() == all.len(),
            placed(all.take(i as int), start as int) == Ok::<Seq<TensorRecord>, GGUFError>(
                records_of(tensors@).take(i as int),
            ),
            forall|k: int| i <= k < all.len() ==> #[trigger] tensors@[k]@ == all[k],
        decreases tensors.len() - i,
    {
        let ghost before = tensors@;
        proof {
            assert(all.take(i + 1).drop_last() =~= all.take(i as int));
            assert(tensors@[i as int]@ == all[i as int]);
        }
        let data_offset: u64 = tensors[i].data_offset;
        if data_offset > u64::MAX - start {
            proof {
                lemma_placed_error(all, i as int, start as int);
            }
            return Err(GGUFError::TooLarge { what: "offset", len: data_offset });
        }
        tensors[i].file_offset = start + data_offset;
        assert(records_of(tensors@).take(i + 1) =~= records_of(before).take(i as int).push(
            tensors@[i as int]@,
        ));
        i += 1;
    }
    proof {
        assert(all.take(i as int) =~= all);
        assert(records_of(tensors@).take(i as int) =~= records_of(tensors@));
    }
    Ok(tensors)
}

/// A record that cannot be placed decides the outcome, whatever stands behind it.
proof fn lemma_placed_error(records: Seq<TensorRecord>, i: int, start: int)
    requires
        0 <= i < records.len(),
        placed(records.take(i), start) is Ok,
        start + records[i].data_offset > u64::MAX,
    ensures
        placed(records, start) == Err::<Seq<TensorRecord>, GGUFError>(
            GGUFError::TooLarge { what: "offset", len: records[i].data_offset },
        ),
    decreases records.len(),
{
    if i == records.len() - 1 {
        assert(records.drop_last() =~= records.take(i));
    } else {
        assert(records.drop_last().take(i) =~= records.take(i));
        lemma_placed_error(records.drop_last(), i, start);
    }
}

/// Reads a file: everything in front of the tensor data.
pub fn parse(bytes: &[u8]) -> (r: Result<GGUFFile, GGUFError>)
    ensures
        match r {
            Ok(file) => file_in(bytes@) == Ok::<FileRecord, GGUFError>(file@),
            Err(e) => file_in(bytes@) == Err::<FileRecord, GGUFError>(e),
        },
{
    let (header, p) = match read_header(bytes) {
        Ok(r) => r,
        Err(e) => return Err(e),
    };
    let (metadata, p) = match read_metadata(bytes, p, header.metadata_kv_count) {
        Ok(r) => r,
        Err(e) => return Err(e),
    };
    let alignment: u32 = match metadata.get("general.alignment") {
        Some(v) => match v {
            MetadataValue::U32(n) => *n,
            _ => DEFAULT_ALIGNMENT,
        },
        None => DEFAULT_ALIGNMENT,
    };
    assert(alignment == alignment_of(metadata_of(metadata@)));
    let (infos, end) = match read_tensor_infos(bytes, p, header.tensor_count) {
        Ok(r) => r,
        Err(e) => return Err(e),
    };
    if alignment == 0 {
        return Err(GGUFError::InvalidAlignment);
    }
    let alignment: u64 = alignment as u64;
    let end: u64 = end as u64;
    if end > u64::MAX - (alignment - 1) {
        return Err(GGUFError::TooLarge { what: "index", len: end });
    }
    let tensor_data_start = align_offset(end, alignment);
    match place_tensors(infos, tensor_data_start) {
        Ok(tensors) => Ok(
            GGUFFile {
                version: header.version,
                tensor_count: header.tensor_count,
                metadata_kv_count: header.metadata_kv_count,
                metadata,
                tensors,
                tensor_data_start,
                alignment,
            },
        ),
        Err(e) => Err(e),
    }
}


impl MetadataValue {
    /// The number of a 32-bit unsigned value.
    pub fn as_u32(&self) -> (r: Option<u32>)
        ensures
            r == (match self@ {
                Value::U32(n) => Some(n),
                _ => None,
            }),
    {
        match self {
            MetadataValue::U32(n) => Some(*n),
            _ => None,
        }
    }

    /// The text of a string value.
    pub fn as_str(&self) -> (r: Option<&str>)
        ensures
            match self@ {
                Value::Str(s) => r is Some && r->Some_0@ == s,
                _ => r is None,
            },
    {
        match self {
            MetadataValue::Str(s) => Some(s.as_str()),
            _ => None,
        }
    }

    /// The number of a 64-bit or 32-bit unsigned value.
    pub fn as_u64(&self) -> (r: Option<u64>)
        ensures
            r == (match self@ {
                Value::U64(n) => Some(n),
                Value::U32(n) => Some(n as u64),
                _ => None,
            }),
    {
        match self {
            MetadataValue::U64(n) => Some(*n),
            MetadataValue::U32(n) => Some(*n as u64),
            _ => None,
        }
    }

    /// The encoding of a single-precision floating point value.
    pub fn as_f32(&self) -> (r: Option<u32>)
        ensures
            r == (match self@ {
                Value::F32(bits) => Some(bits),
                _ => None,
            }),
    {
        match self {
            MetadataValue::F32(bits) => Some(*bits),
            _ => None,
        }
    }
}

/// Whether tensor number `i` has the given name and none before it has.
pub open spec fn first_named(tensors: Seq<TensorRecord>, name: Seq<char>, i: int) -> bool {
    &&& 0 <= i < tensors.len()
    &&& tensors[i].name == name
    &&& forall|k: int| 0 <= k < i ==> (#[trigger] tensors[k]).name != name
}

impl GGUFFile {
    /// The first tensor of the given name.
    pub fn get_tensor(&self, name: &str) -> (r: Option<&TensorInfo>)
        ensures
            match r {
                Some(t) => exists|i: int| #[trigger]
                    first_named(self@.tensors, name@, i) && *t == self.tensors@[i],
                None => forall|k: int|
                    0 <= k < self@.tensors.len() ==> (#[trigger] self@.tensors[k]).name != name@,
            },
    {
        let wanted: String = name.to_owned();
        let mut i: usize = 0;
        while i < self.tensors.len()
            invariant
                wanted@ == name@,
                i <= self.tensors@.len(),
                forall|k: int| 0 <= k < i ==> (#[trigger] self@.tensors[k]).name != name@,
            decreases self.tensors@.len() - i,
        {
            if self.tensors[i].name == wanted {
                assert(first_named(self@.tensors, name@, i as int));
                return Some(&self.tensors[i]);
            }
            i += 1;
        }
        None
    }
}

/// The name of a tensor type.
pub open spec fn name_of_type(t: u32) -> &'static str {
    match t {
        0 => "F32",
        1 => "F16",
        2 => "Q4_0",
        3 => "Q4_1",
        6 => "Q5_0",
        7 => "Q5_1",
        8 => "Q8_0",
        9 => "Q8_1",
        10 => "Q2_K",
        11 => "Q3_K",
        12 => "Q4_K",
        13 => "Q5_K",
        14 => "Q6_K",
        15 => "Q8_K",
        16 => "IQ2_XXS",
        17 => "IQ2_XS",
        18 => "IQ3_XXS",
        19 => "IQ1_S",
        20 => "IQ4_NL",
        21 => "IQ3_S",
        22 => "IQ2_S",
        23 => "IQ4_XS",
        24 => "I8",
        25 => "I16",
        26 => "I32",
        27 => "I64",
        28 => "F64",
        29 => "IQ1_M",
        30 => "BF16",
        _ => "UNKNOWN",
    }
}

/// The name of a tensor type.
pub fn ggml_type_name(t: u32) -> (name: &'static str)
    ensures
        name == name_of_type(t),
{
    match t {
        0 => "F32",
        1 => "F16",
        2 => "Q4_0",
        3 => "Q4_1",
        6 => "Q5_0",
        7 => "Q5_1",
        8 => "Q8_0",
        9 => "Q8_1",
        10 => "Q2_K",
        11 => "Q3_K",
        12 => "Q4_K",
        13 => "Q5_K",
        14 => "Q6_K",
        15 => "Q8_K",
        16 => "IQ2_XXS",
        17 => "IQ2_XS",
        18 => "IQ3_XXS",
        19 => "IQ1_S",
        20 => "IQ4_NL",
        21 => "IQ3_S",
        22 => "IQ2_S",
        23 => "IQ4_XS",
        24 => "I8",
        25 => "I16",
        26 => "I32",
        27 => "I64",
        28 => "F64",
        29 => "IQ1_M",
        30 => "BF16",
        _ => "UNKNOWN",
    }
}

/// Where the index of a file ends, behind the last of its records.
pub open spec fn index_end(b: Seq<u8>) -> int {
    match header_in(b) {
        Err(_) => 0,
        Ok((header, p)) => match entries_at(b, p, header.metadata_kv_count as nat) {
            Err(_) => 0,
            Ok((_, p)) => match records_at(b, p, header.tensor_count as nat) {
                Err(_) => 0,
                Ok((_, end)) => end,
            },
        },
    }
}

/// What holds of every file that is accepted: the version is known, there are no more keys than
/// entries and as many tensors as records, the tensor data begins at the first aligned position
/// at or behind the end of the index, and each tensor lies at its offset behind the start of the
/// data.
pub proof fn law_parsed_file(b: Seq<u8>, f: FileRecord)
    requires
        file_in(b) == Ok::<FileRecord, GGUFError>(f),
    ensures
        1 <= f.version <= 3,
        f.metadata.dom().finite(),
        f.metadata.len() <= f.metadata_kv_count,
        f.tensors.len() == f.tensor_count,
        f.alignment == alignment_of(f.metadata),
        f.alignment > 0,
        24 <= index_end(b) <= b.len(),
        f.tensor_data_start as int % f.alignment as int == 0,
        index_end(b) <= f.tensor_data_start < index_end(b) + f.alignment,
        forall|p: int|
            #![trigger p % f.alignment as int]
            p >= index_end(b) && p % f.alignment as int == 0 ==> p >= f.tensor_data_start,
        forall|i: int|
            0 <= i < f.tensors.len() ==> (#[trigger] f.tensors[i]).file_offset
                == f.tensor_data_start + f.tensors[i].data_offset,
{
    if let Ok((header, p)) = header_in(b) {
        if let Ok((entries, p)) = entries_at(b, p, header.metadata_kv_count as nat) {
            if let Ok((records, end)) = records_at(b, p, header.tensor_count as nat) {
                lemma_entries_extent(b, 24, header.metadata_kv_count as nat);
                lemma_records_extent(b, p, header.tensor_count as nat);
                lemma_entry_map_len(entries);
                let alignment = alignment_of(entry_map(entries)) as int;
                lemma_aligned(end, alignment);
                lemma_placed(records, aligned(end, alignment));
            }
        }
    }
}

/// Values that stand one behind the other are read one after the other.
proof fn lemma_values_read(b: Seq<u8>, tag: u32, vals: Seq<Value>, ends: Seq<int>)
    requires
        ends.len() == vals.len() + 1,
        0 <= ends[0] <= b.len(),
        forall|i: int|
            0 <= i < vals.len() ==> value_at(b, ends[i], tag) == Ok::<(Value, int), GGUFError>(
                (#[trigger] vals[i], ends[i + 1]),
            ),
    ensures
        values_at(b, ends[0], tag, vals.len()) == Ok::<(Seq<Value>, int), GGUFError>(
            (vals, ends.last()),
        ),
    decreases vals.len(),
{
    if vals.len() == 0 {
        assert(vals =~= Seq::empty());
    } else {
        let (rest, rest_ends) = (vals.skip(1), ends.skip(1));
        assert(value_at(b, ends[0], tag) == Ok::<(Value, int), GGUFError>((vals[0], ends[1])));
        lemma_value_extent(b, ends[0], tag);
        assert forall|i: int| 0 <= i < rest.len() implies value_at(b, rest_ends[i], tag) == Ok::<
            (Value, int),
            GGUFError,
        >((#[trigger] rest[i], rest_ends[i + 1])) by {
            assert(rest[i] == vals[i + 1]);
            assert(value_at(b, ends[i + 1], tag) == Ok::<(Value, int), GGUFError>(
                (vals[i + 1], ends[i + 1 + 1]),
            ));
        }
        lemma_values_read(b, tag, rest, rest_ends);
        assert(vals =~= seq![vals[0]] + rest);
    }
}

/// An array of up to a million items is read as the items that stand in it, in their order: behind
/// the type of the items and their number stands one item behind the other. A longer array is
/// refused.
pub proof fn law_array_is_read(
    b: Seq<u8>,
    pos: int,
    tag: u32,
    vals: Seq<Value>,
    ends: Seq<int>,
    count: nat,
)
    requires
        0 <= pos,
        pos + 12 <= b.len(),
        le_nat(b.subrange(pos, pos + 4)) == tag,
        le_nat(b.subrange(pos + 4, pos + 12)) == count,
        count <= u64::MAX,
        ends.len() == vals.len() + 1,
        ends[0] == pos + 12,
        forall|i: int|
            0 <= i < vals.len() ==> value_at(b, ends[i], tag) == Ok::<(Value, int), GGUFError>(
                (#[trigger] vals[i], ends[i + 1]),
            ),
    ensures
        count == vals.len() && count <= 1_000_000 ==> value_at(b, pos, 9) == Ok::<
            (Value, int),
            GGUFError,
        >((Value::Array(vals), ends.last())),
        count > 1_000_000 ==> value_at(b, pos, 9) == Err::<(Value, int), GGUFError>(
            GGUFError::TooLarge { what: "array", len: count as u64 },
        ),
{
    lemma_values_read(b, tag, vals, ends);
}

/// Dimensions that stand one behind the other are read one after the other.
proof fn lemma_dims_read(b: Seq<u8>, pos: int, dims: Seq<u64>)
    requires
        0 <= pos,
        pos + 8 * dims.len() <= b.len(),
        forall|i: int|
            0 <= i < dims.len() ==> le_nat(b.subrange(pos + 8 * i, pos + 8 * i + 8))
                == #[trigger] dims[i],
    ensures
        dims_at(b, pos, dims.len()) == Ok::<(Seq<u64>, int), GGUFError>(
            (dims, pos + 8 * dims.len()),
        ),
    decreases dims.len(),
{
    if dims.len() == 0 {
        assert(dims =~= Seq::empty());
    } else {
        let rest = dims.skip(1);
        assert(dims[0] == le_nat(b.subrange(pos + 8 * 0, pos + 8 * 0 + 8)));
        assert forall|i: int| 0 <= i < rest.len() implies le_nat(
            b.subrange(pos + 8 + 8 * i, pos + 8 + 8 * i + 8),
        ) == #[trigger] rest[i] by {
            assert(rest[i] == dims[i + 1]);
            assert(le_nat(b.subrange(pos + 8 * (i + 1), pos + 8 * (i + 1) + 8)) == dims[i + 1]);
        }
        lemma_dims_read(b, pos + 8, rest);
        assert(dims =~= seq![dims[0]] + rest);
    }
}

/// A tensor record is read as what stands in it: its name, the number of its dimensions, these in
/// the opposite order, its type, and its offset.
pub proof fn law_record_is_read(
    b: Seq<u8>,
    pos: int,
    name: Seq<char>,
    p: int,
    dims: Seq<u64>,
    ggml_type: u32,
    data_offset: u64,
)
    requires
        string_at(b, pos) == Ok::<(Seq<char>, int), GGUFError>((name, p)),
        0 <= p,
        p + 16 + 8 * dims.len() <= b.len(),
        dims.len() <= u32::MAX,
        le_nat(b.subrange(p, p + 4)) == dims.len(),
        forall|i: int|
            0 <= i < dims.len() ==> le_nat(b.subrange(p + 4 + 8 * i, p + 4 + 8 * i + 8))
                == #[trigger] dims[i],
        le_nat(b.subrange(p + 4 + 8 * dims.len(), p + 8 + 8 * dims.len())) == ggml_type,
        le_nat(b.subrange(p + 8 + 8 * dims.len(), p + 16 + 8 * dims.len())) == data_offset,
    ensures
        record_at(b, pos) matches Ok((t, end)) && {
            &&& end == p + 16 + 8 * dims.len()
            &&& t.name == name
            &&& t.shape.len() == dims.len()
            &&& forall|i: int|
                0 <= i < dims.len() ==> #[trigger] t.shape[i] == dims[dims.len() - 1 - i]
            &&& t.ggml_type == ggml_type
            &&& t.data_offset == data_offset
        },
{
    lemma_dims_read(b, p + 4, dims);
}

/// A string is read as the characters that its bytes encode: behind their number stand the bytes. A
/// string of more than a million bytes is refused, and so is one that goes over the end, and one
/// that is no encoding of characters.
pub proof fn law_string_is_read(b: Seq<u8>, pos: int, n: nat)
    requires
        0 <= pos,
        pos + 8 <= b.len(),
        le_nat(b.subrange(pos, pos + 8)) == n,
    ensures
        n > 1_000_000 ==> string_at(b, pos) == Err::<(Seq<char>, int), GGUFError>(
            GGUFError::TooLarge { what: "string", len: n as u64 },
        ),
        n <= 1_000_000 && pos + 8 + n > b.len() ==> string_at(b, pos) == Err::<
            (Seq<char>, int),
            GGUFError,
        >(GGUFError::Io),
        n <= 1_000_000 && pos + 8 + n <= b.len() ==> {
            let encoding = b.subrange(pos + 8, pos + 8 + n);
            string_at(b, pos) == if valid_utf8(encoding) {
                Ok::<(Seq<char>, int), GGUFError>((decode_utf8(encoding), pos + 8 + n))
            } else {
                Err(GGUFError::Utf8)
            }
        },
{
}

/// A number is read from as many bytes as its type has, the least significant first; a signed one
/// differs from the unsigned one of the same bytes by nothing or by all their patterns. A truth
/// value is a byte, and anything but zero and one is refused.
pub proof fn law_number_is_read(b: Seq<u8>, pos: int, width: int, n: nat)
    requires
        0 <= pos,
        width == 1 || width == 2 || width == 4 || width == 8,
        pos + width <= b.len(),
        le_nat(b.subrange(pos, pos + width)) == n,
    ensures
        width == 1 ==> {
            &&& n < 0x100
            &&& value_at(b, pos, 0) == Parsed::<Value>::Ok((Value::U8(n as u8), pos + 1))
            &&& value_at(b, pos, 1) matches Ok((Value::I8(x), end)) && end == pos + 1 && (x == n
                || x == n - 0x100)
            &&& value_at(b, pos, 7) == if n <= 1 {
                Parsed::<Value>::Ok((Value::Bool(n == 1), pos + 1))
            } else {
                Err(GGUFError::InvalidBool(n as u8))
            }
        },
        width == 2 ==> {
            &&& n < 0x1_0000
            &&& value_at(b, pos, 2) == Parsed::<Value>::Ok((Value::U16(n as u16), pos + 2))
            &&& value_at(b, pos, 3) matches Ok((Value::I16(x), end)) && end == pos + 2 && (x == n
                || x == n - 0x1_0000)
        },
        width == 4 ==> {
            &&& n < 0x1_0000_0000
            &&& value_at(b, pos, 4) == Parsed::<Value>::Ok((Value::U32(n as u32), pos + 4))
            &&& value_at(b, pos, 5) matches Ok((Value::I32(x), end)) && end == pos + 4 && (x == n
                || x == n - 0x1_0000_0000)
            &&& value_at(b, pos, 6) == Parsed::<Value>::Ok((Value::F32(n as u32), pos + 4))
        },
        width == 8 ==> {
            &&& n < 0x1_0000_0000_0000_0000
            &&& value_at(b, pos, 10) == Parsed::<Value>::Ok((Value::U64(n as u64), pos + 8))
            &&& value_at(b, pos, 11) matches Ok((Value::I64(x), end)) && end == pos + 8 && (x == n
                || x == n - 0x1_0000_0000_0000_0000)
            &&& value_at(b, pos, 12) == Parsed::<Value>::Ok((Value::F64(n as u64), pos + 8))
        },
{
    let s = b.subrange(pos, pos + width);
    lemma_le_bound(s);
    reveal_with_fuel(vstd::arithmetic::power::pow, 9);
}

/// Bytes hold a number below the number of their patterns.
proof fn lemma_le_bound(b: Seq<u8>)
    ensures
        le_nat(b) < vstd::arithmetic::power::pow(256, b.len()),
    decreases b.len(),
{
    reveal(vstd::arithmetic::power::pow);
    if b.len() > 0 {
        lemma_le_bound(b.skip(1));
    }
}

/// Entries that stand one behind the other are read one after the other.
proof fn lemma_entries_read(b: Seq<u8>, entries: Seq<(Seq<char>, Value)>, ends: Seq<int>)
    requires
        ends.len() == entries.len() + 1,
        forall|i: int|
            0 <= i < entries.len() ==> entry_at(b, ends[i]) == Parsed::<(Seq<char>, Value)>::Ok(
                (#[trigger] entries[i], ends[i + 1]),
            ),
    ensures
        entries_at(b, ends[0], entries.len()) == Parsed::<Seq<(Seq<char>, Value)>>::Ok(
            (entries, ends.last()),
        ),
    decreases entries.len(),
{
    if entries.len() == 0 {
        assert(entries =~= Seq::empty());
    } else {
        let (rest, rest_ends) = (entries.skip(1), ends.skip(1));
        assert(entry_at(b, ends[0]) == Parsed::<(Seq<char>, Value)>::Ok((entries[0], ends[1])));
        assert forall|i: int| 0 <= i < rest.len() implies entry_at(b, rest_ends[i]) == Parsed::<
            (Seq<char>, Value),
        >::Ok((#[trigger] rest[i], rest_ends[i + 1])) by {
            assert(rest[i] == entries[i + 1]);
            assert(entry_at(b, ends[i + 1]) == Parsed::<(Seq<char>, Value)>::Ok(
                (entries[i + 1], ends[i + 1 + 1]),
            ));
        }
        lemma_entries_read(b, rest, rest_ends);
        assert(entries =~= seq![entries[0]] + rest);
    }
}

/// Records that stand one behind the other are read one after the other.
proof fn lemma_records_read(b: Seq<u8>, records: Seq<TensorRecord>, ends: Seq<int>)
    requires
        ends.len() == records.len() + 1,
        forall|i: int|
            0 <= i < records.len() ==> record_at(b, ends[i]) == Parsed::<TensorRecord>::Ok(
                (#[trigger] records[i], ends[i + 1]),
            ),
    ensures
        records_at(b, ends[0], records.len()) == Parsed::<Seq<TensorRecord>>::Ok(
            (records, ends.last()),
        ),
    decreases records.len(),
{
    if records.len() == 0 {
        assert(records =~= Seq::empty());
    } else {
        let (rest, rest_ends) = (records.skip(1), ends.skip(1));
        assert(record_at(b, ends[0]) == Parsed::<TensorRecord>::Ok((records[0], ends[1])));
        assert forall|i: int| 0 <= i < rest.len() implies record_at(b, rest_ends[i]) == Parsed::<
            TensorRecord,
        >::Ok((#[trigger] rest[i], rest_ends[i + 1])) by {
            assert(rest[i] == records[i + 1]);
            assert(record_at(b, ends[i + 1]) == Parsed::<TensorRecord>::Ok(
                (records[i + 1], ends[i + 1 + 1]),
            ));
        }
        lemma_records_read(b, rest, rest_ends);
        assert(records =~= seq![records[0]] + rest);
    }
}

/// Under a key stands the value of the last entry with this key, and nothing where no entry has
/// it.
pub proof fn law_last_entry_counts(entries: Seq<(Seq<char>, Value)>, key: Seq<char>, i: int)
    requires
        -1 <= i < entries.len(),
        i >= 0 ==> entries[i].0 == key,
        forall|j: int| i < j < entries.len() ==> (#[trigger] entries[j]).0 != key,
    ensures
        i >= 0 ==> entry_map(entries).contains_key(key) && entry_map(entries)[key] == entries[i].1,
        i < 0 ==> !entry_map(entries).contains_key(key),
    decreases entries.len(),
{
    if i < entries.len() - 1 {
        assert(entries[entries.len() - 1].0 != key);
        law_last_entry_counts(entries.drop_last(), key, i);
    }
}

/// Records have positions where these are 64-bit numbers.
proof fn lemma_placed_ok(records: Seq<TensorRecord>, start: int)
    requires
        forall|i: int|
            0 <= i < records.len() ==> start + (#[trigger] records[i]).data_offset <= u64::MAX,
    ensures
        placed(records, start) is Ok,
    decreases records.len(),
{
    if records.len() > 0 {
        lemma_placed_ok(records.drop_last(), start);
    }
}

/// A file is read as what stands in it: four bytes `GGUF`, a version from 1 to 3, the number of its
/// tensor records, the number of its metadata entries, these entries one behind the other, and then
/// the records one behind the other. The tensor data begins at the next multiple of the alignment,
/// which is 32 where the metadata has no other, and each tensor lies at its offset from there.
pub proof fn law_file_is_read(
    b: Seq<u8>,
    version: u32,
    entries: Seq<(Seq<char>, Value)>,
    entry_ends: Seq<int>,
    records: Seq<TensorRecord>,
    record_ends: Seq<int>,
    alignment: u32,
    start: int,
)
    requires
        24 <= b.len() <= u64::MAX,
        b[0] == 0x47 && b[1] == 0x47 && b[2] == 0x55 && b[3] == 0x46,
        le_nat(b.subrange(4, 8)) == version,
        1 <= version <= 3,
        le_nat(b.subrange(8, 16)) == records.len(),
        le_nat(b.subrange(16, 24)) == entries.len(),
        records.len() <= u64::MAX,
        entries.len() <= u64::MAX,
        entry_ends.len() == entries.len() + 1,
        entry_ends[0] == 24,
        forall|i: int|
            0 <= i < entries.len() ==> entry_at(b, entry_ends[i]) == Parsed::<
                (Seq<char>, Value),
            >::Ok((#[trigger] entries[i], entry_ends[i + 1])),
        record_ends.len() == records.len() + 1,
        record_ends[0] == entry_ends.last(),
        forall|i: int|
            0 <= i < records.len() ==> record_at(b, record_ends[i]) == Parsed::<TensorRecord>::Ok(
                (#[trigger] records[i], record_ends[i + 1]),
            ),
        alignment > 0,
        (exists|i: int|
            {
                &&& 0 <= i < entries.len()
                &&& #[trigger] entries[i] == ("general.alignment"@, Value::U32(alignment))
                &&& forall|j: int|
                    i < j < entries.len() ==> (#[trigger] entries[j]).0 != "general.alignment"@
            }) || (alignment == 32 && forall|j: int|
            0 <= j < entries.len() ==> (#[trigger] entries[j]).0 != "general.alignment"@),
        record_ends.last() <= start < record_ends.last() + alignment,
        start % alignment as int == 0,
        record_ends.last() + alignment - 1 <= u64::MAX,
        forall|i: int|
            0 <= i < records.len() ==> start + (#[trigger] records[i]).data_offset <= u64::MAX,
    ensures
        file_in(b) matches Ok(f) && {
            &&& f.version == version
            &&& f.tensor_count == records.len()
            &&& f.metadata_kv_count == entries.len()
            &&& f.metadata == entry_map(entries)
            &&& f.alignment == alignment
            &&& f.tensor_data_start == start
            &&& f.tensors.len() == records.len()
            &&& forall|i: int|
                0 <= i < records.len() ==> {
                    &&& (#[trigger] f.tensors[i]).name == records[i].name
                    &&& f.tensors[i].shape == records[i].shape
                    &&& f.tensors[i].ggml_type == records[i].ggml_type
                    &&& f.tensors[i].data_offset == records[i].data_offset
                    &&& f.tensors[i].file_offset == start + records[i].data_offset
                }
        },
{
    lemma_magic(b);
    lemma_entries_read(b, entries, entry_ends);
    lemma_records_read(b, records, record_ends);
    lemma_entries_extent(b, 24, entries.len());
    lemma_records_extent(b, record_ends[0], records.len());
    let key = "general.alignment"@;
    if exists|i: int|
        {
            &&& 0 <= i < entries.len()
            &&& #[trigger] entries[i] == (key, Value::U32(alignment))
            &&& forall|j: int| i < j < entries.len() ==> (#[trigger] entries[j]).0 != key
        } {
        let i = choose|i: int|
            {
                &&& 0 <= i < entries.len()
                &&& #[trigger] entries[i] == (key, Value::U32(alignment))
                &&& forall|j: int| i < j < entries.len() ==> (#[trigger] entries[j]).0 != key
            };
        law_last_entry_counts(entries, key, i);
    } else {
        law_last_entry_counts(entries, key, -1);
    }
    assert(alignment_of(entry_map(entries)) == alignment);
    let end = record_ends.last();
    lemma_aligned(end, alignment as int);
    lemma_one_multiple(aligned(end, alignment as int), start, end, alignment as int);
    lemma_placed_ok(records, start);
    lemma_placed(records, start);
}

/// The four bytes that a file begins with.
proof fn lemma_magic(b: Seq<u8>)
    requires
        b.len() >= 4,
    ensures
        le_nat(b.subrange(0, 4)) == b[0] + 256 * b[1] + 65536 * b[2] + 16777216 * b[3],
{
    let s = b.subrange(0, 4);
    reveal_with_fuel(le_nat, 5);
    assert(s.skip(1)[0] == s[1]);
    assert(s.skip(1).skip(1)[0] == s[2]);
    assert(s.skip(1).skip(1).skip(1)[0] == s[3]);
    assert(s.skip(1).skip(1).skip(1).skip(1).len() == 0);
}

/// A stretch as long as the alignment has one multiple of it.
proof fn lemma_one_multiple(a: int, b: int, from: int, alignment: int)
    requires
        alignment > 0,
        from <= a < from + alignment,
        from <= b < from + alignment,
        a % alignment == 0,
        b % alignment == 0,
    ensures
        a == b,
{
    vstd::arithmetic::div_mod::lemma_fundamental_div_mod(a, alignment);
    vstd::arithmetic::div_mod::lemma_fundamental_div_mod(b, alignment);
    let (p, q) = (a / alignment, b / alignment);
    assert(p == q) by (nonlinear_arith)
        requires
            alignment > 0,
            -alignment < alignment * p - alignment * q < alignment,
    ;
}

/// A file that does not begin with `GGUF`, or has another version than 1, 2 or 3, is refused.
pub proof fn law_other_files_are_refused(b: Seq<u8>)
    requires
        b.len() >= 24,
    ensures
        !(b[0] == 0x47 && b[1] == 0x47 && b[2] == 0x55 && b[3] == 0x46) ==> file_in(b) == Err::<
            FileRecord,
            GGUFError,
        >(GGUFError::InvalidMagic),
        b[0] == 0x47 && b[1] == 0x47 && b[2] == 0x55 && b[3] == 0x46 && !(1 <= le_nat(
            b.subrange(4, 8),
        ) <= 3) ==> file_in(b) == Err::<FileRecord, GGUFError>(
            GGUFError::UnsupportedVersion(le_nat(b.subrange(4, 8)) as u32),
        ),
{
    lemma_magic(b);
}

/// A list of entries describes no more keys than there are entries.
proof fn lemma_entry_map_len(entries: Seq<(Seq<char>, Value)>)
    ensures
        entry_map(entries).dom().finite(),
        entry_map(entries).len() <= entries.len(),
    decreases entries.len(),
{
    if entries.len() > 0 {
        lemma_entry_map_len(entries.drop_last());
    }
}

proof fn lemma_placed(records: Seq<TensorRecord>, start: int)
    requires
        start >= 0,
    ensures
        placed(records, start) matches Ok(ts) ==> {
            &&& ts.len() == records.len()
            &&& forall|i: int|
                0 <= i < ts.len() ==> (#[trigger] ts[i]) == (TensorRecord {
                    file_offset: ts[i].file_offset,
                    ..records[i]
                }) && ts[i].file_offset == start + records[i].data_offset
        },
    decreases records.len(),
{
    if records.len() > 0 {
        lemma_placed(records.drop_last(), start);
    }
}

proof fn lemma_entries_extent(b: Seq<u8>, pos: int, n: nat)
    requires
        0 <= pos,
    ensures
        entries_at(b, pos, n) matches Ok((es, end)) ==> pos <= end && es.len() == n && (n > 0
            ==> end <= b.len()),
    decreases n,
{
    if n > 0 {
        if let Ok((key, p)) = string_at(b, pos) {
            if let Ok((tag, q)) = uint_at(b, p, 4) {
                lemma_value_extent(b, q, tag as u32);
                if let Ok((v, next)) = value_at(b, q, tag as u32) {
                    lemma_entries_extent(b, next, (n - 1) as nat);
                }
            }
        }
    }
}

proof fn lemma_dims_extent(b: Seq<u8>, pos: int, n: nat)
    requires
        0 <= pos,
    ensures
        dims_at(b, pos, n) matches Ok((ds, end)) ==> pos <= end && ds.len() == n && (n > 0 ==> end
            <= b.len()),
    decreases n,
{
    if n > 0 {
        if let Ok((d, next)) = uint_at(b, pos, 8) {
            lemma_dims_extent(b, next, (n - 1) as nat);
        }
    }
}

proof fn lemma_records_extent(b: Seq<u8>, pos: int, n: nat)
    requires
        0 <= pos,
    ensures
        records_at(b, pos, n) matches Ok((rs, end)) ==> pos <= end && rs.len() == n && (n > 0
            ==> end <= b.len()),
    decreases n,
{
    if n > 0 {
        if let Ok((name, p)) = string_at(b, pos) {
            if let Ok((n_dims, p)) = uint_at(b, p, 4) {
                lemma_dims_extent(b, p, n_dims);
                if let Ok((record, next)) = record_at(b, pos) {
                    lemma_records_extent(b, next, (n - 1) as nat);
                }
            }
        }
    }
}

/// What stands behind the index, the tensor data above all, has no part in what is parsed.
pub proof fn law_parse_ignores_what_follows(b: Seq<u8>, more: Seq<u8>)
    requires
        file_in(b) is Ok,
    ensures
        file_in(b + more) == file_in(b),
{
    lemma_uint_stable(b, more, 0, 4);
    lemma_uint_stable(b, more, 4, 4);
    lemma_uint_stable(b, more, 8, 8);
    lemma_uint_stable(b, more, 16, 8);
    if let Ok((header, p)) = header_in(b) {
        lemma_entries_stable(b, more, p, header.metadata_kv_count as nat);
        lemma_entries_extent(b, p, header.metadata_kv_count as nat);
        if let Ok((entries, p)) = entries_at(b, p, header.metadata_kv_count as nat) {
            lemma_records_stable(b, more, p, header.tensor_count as nat);
        }
    }
}

proof fn lemma_uint_stable(b: Seq<u8>, more: Seq<u8>, pos: int, width: int)
    requires
        0 <= pos,
        0 <= width,
    ensures
        uint_at(b, pos, width) is Ok ==> uint_at(b + more, pos, width) == uint_at(b, pos, width),
{
    if pos + width <= b.len() {
        assert((b + more).subrange(pos, pos + width) =~= b.subrange(pos, pos + width));
    }
}

proof fn lemma_string_stable(b: Seq<u8>, more: Seq<u8>, pos: int)
    requires
        0 <= pos,
    ensures
        string_at(b, pos) is Ok ==> string_at(b + more, pos) == string_at(b, pos),
{
    lemma_uint_stable(b, more, pos, 8);
    if let Ok((len, start)) = uint_at(b, pos, 8) {
        if start + len <= b.len() {
            assert((b + more).subrange(start, start + len) =~= b.subrange(start, start + len));
        }
    }
}

proof fn lemma_value_stable(b: Seq<u8>, more: Seq<u8>, pos: int, tag: u32)
    requires
        0 <= pos,
    ensures
        value_at(b, pos, tag) is Ok ==> value_at(b + more, pos, tag) == value_at(b, pos, tag),
    decreases b.len() - pos, 0int,
{
    if tag == 8 {
        lemma_string_stable(b, more, pos);
    } else if tag == 9 {
        lemma_uint_stable(b, more, pos, 4);
        if let Ok((item_tag, p)) = uint_at(b, pos, 4) {
            lemma_uint_stable(b, more, p, 8);
            if let Ok((count, start)) = uint_at(b, p, 8) {
                lemma_values_stable(b, more, start, item_tag as u32, count);
            }
        }
    } else {
        lemma_uint_stable(b, more, pos, scalar_width(tag));
    }
}

proof fn lemma_values_stable(b: Seq<u8>, more: Seq<u8>, pos: int, tag: u32, n: nat)
    requires
        0 <= pos <= b.len(),
    ensures
        values_at(b, pos, tag, n) is Ok ==> values_at(b + more, pos, tag, n) == values_at(
            b,
            pos,
            tag,
            n,
        ),
    decreases b.len() - pos, 1int,
{
    if n > 0 {
        lemma_value_stable(b, more, pos, tag);
        lemma_value_extent(b, pos, tag);
        if let Ok((v, next)) = value_at(b, pos, tag) {
            lemma_values_stable(b, more, next, tag, (n - 1) as nat);
        }
    }
}

proof fn lemma_entries_stable(b: Seq<u8>, more: Seq<u8>, pos: int, n: nat)
    requires
        0 <= pos,
    ensures
        entries_at(b, pos, n) is Ok ==> entries_at(b + more, pos, n) == entries_at(b, pos, n),
    decreases n,
{
    if n > 0 {
        lemma_string_stable(b, more, pos);
        if let Ok((key, p)) = string_at(b, pos) {
            lemma_uint_stable(b, more, p, 4);
            if let Ok((tag, q)) = uint_at(b, p, 4) {
                lemma_value_stable(b, more, q, tag as u32);
                lemma_value_extent(b, q, tag as u32);
                if let Ok((v, next)) = value_at(b, q, tag as u32) {
                    lemma_entries_stable(b, more, next, (n - 1) as nat);
                }
            }
        }
    }
}

proof fn lemma_dims_stable(b: Seq<u8>, more: Seq<u8>, pos: int, n: nat)
    requires
        0 <= pos,
    ensures
        dims_at(b, pos, n) is Ok ==> dims_at(b + more, pos, n) == dims_at(b, pos, n),
    decreases n,
{
    if n > 0 {
        lemma_uint_stable(b, more, pos, 8);
        if let Ok((d, next)) = uint_at(b, pos, 8) {
            lemma_dims_stable(b, more, next, (n - 1) as nat);
        }
    }
}

proof fn lemma_records_stable(b: Seq<u8>, more: Seq<u8>, pos: int, n: nat)
    requires
        0 <= pos,
    ensures
        records_at(b, pos, n) is Ok ==> records_at(b + more, pos, n) == records_at(b, pos, n),
    decreases n,
{
    if n > 0 {
        lemma_string_stable(b, more, pos);
        if let Ok((name, p)) = string_at(b, pos) {
            lemma_uint_stable(b, more, p, 4);
            if let Ok((n_dims, p)) = uint_at(b, p, 4) {
                lemma_dims_stable(b, more, p, n_dims);
                lemma_dims_extent(b, p, n_dims);
                if let Ok((dims, p)) = dims_at(b, p, n_dims) {
                    lemma_uint_stable(b, more, p, 4);
                    lemma_uint_stable(b, more, p + 4, 8);
                    if let Ok((record, next)) = record_at(b, pos) {
                        lemma_records_stable(b, more, next, (n - 1) as nat);
                    }
                }
            }
        }
    }
}

} // verus!
