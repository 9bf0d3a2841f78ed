//! Dataset domain: element types, errors and content hashing shared by the
//! loaders, the index, the projection cache and the streaming buffer.

use vstd::prelude::*;

pub mod builtin;
pub mod cache;
pub mod export;
pub mod index;
pub mod labels;
pub mod loader;
pub mod metadata;
pub mod preprocessor;
pub mod source;
pub mod stream;
pub mod table;

verus! {

/// Errors produced by the dataset layer. I/O failures carry the rendered
/// message of the operating-system error.
#[derive(Debug, Clone, PartialEq, Eq)]
pub enum DatasetError {
    Io(String),
    Format(String),
    Unsupported(String),
    InvalidQuery(String),
}

/// The rendered text of an error: a prefix naming its kind, then its message.
pub open spec fn error_text(e: DatasetError) -> Seq<char> {
    match e {
        DatasetError::Io(m) => "I/O error: "@ + m@,
        DatasetError::Format(m) => "format error: "@ + m@,
        DatasetError::Unsupported(m) => "unsupported: "@ + m@,
        DatasetError::InvalidQuery(m) => "invalid query: "@ + m@,
    }
}

impl DatasetError {
    /// Human-readable rendering of the error.
    pub fn message(&self) -> (r: String)
        ensures
            r@ == error_text(*self),
    {
        let (prefix, m) = match self {
            DatasetError::Io(m) => ("I/O error: ", m),
            DatasetError::Format(m) => ("format error: ", m),
            DatasetError::Unsupported(m) => ("unsupported: ", m),
            DatasetError::InvalidQuery(m) => ("invalid query: ", m),
        };
        let mut s = String::from_str(prefix);
        s.append(m.as_str());
        s
    }
}

/// The kind of a dataset error, without its message.
#[derive(Debug, Clone, Copy, PartialEq, Eq, Structural)]
pub enum ErrorKind {
    Io,
    Format,
    Unsupported,
    InvalidQuery,
}

pub open spec fn kind_of(e: DatasetError) -> ErrorKind {
    match e {
        DatasetError::Io(_) => ErrorKind::Io,
        DatasetError::Format(_) => ErrorKind::Format,
        DatasetError::Unsupported(_) => ErrorKind::Unsupported,
        DatasetError::InvalidQuery(_) => ErrorKind::InvalidQuery,
    }
}

/// Supported numeric element types for binary array payloads.
#[derive(Debug, Clone, Copy, PartialEq, Eq, Structural)]
pub enum ElemType {
    F32,
    F64,
    I8,
    U8,
    I16,
    U16,
    I32,
    U32,
    I64,
    U64,
}

/// Byte width of one element of the given type.
pub open spec fn elem_size(e: ElemType) -> nat {
    match e {
        ElemType::I8 | ElemType::U8 => 1,
        ElemType::I16 | ElemType::U16 => 2,
        ElemType::F32 | ElemType::I32 | ElemType::U32 => 4,
        ElemType::F64 | ElemType::I64 | ElemType::U64 => 8,
    }
}

impl ElemType {
    pub fn size(&self) -> (r: usize)
        ensures
            r == elem_size(*self),
    {
        match self {
            ElemType::I8 | ElemType::U8 => 1,
            ElemType::I16 | ElemType::U16 => 2,
            ElemType::F32 | ElemType::I32 | ElemType::U32 => 4,
            ElemType::F64 | ElemType::I64 | ElemType::U64 => 8,
        }
    }
}

pub const FNV_OFFSET: u64 = 0xcbf29ce484222325;

pub const FNV_PRIME: u64 = 0x100000001b3;

/// One FNV-1a step: xor the byte in, then multiply by the prime modulo 2^64.
pub open spec fn fnv_step(h: u64, b: u8) -> u64 {
    (h ^ (b as u64)).wrapping_mul(FNV_PRIME)
}

/// FNV-1a over a byte stream, starting from hash `h`.
pub open spec fn fnv_bytes(h: u64, bytes: Seq<u8>) -> u64
    decreases bytes.len(),
{
    if bytes.len() == 0 {
        h
    } else {
        fnv_step(fnv_bytes(h, bytes.drop_last()), bytes.last())
    }
}

/// Concatenation of all parts into one byte stream.
pub open spec fn concat_parts(parts: Seq<Seq<u8>>) -> Seq<u8>
    decreases parts.len(),
{
    if parts.len() == 0 {
        Seq::empty()
    } else {
        concat_parts(parts.drop_last()) + parts.last()
    }
}

/// The views of the parts of a slice of byte slices.
pub open spec fn parts_view(parts: Seq<&[u8]>) -> Seq<Seq<u8>> {
    parts.map_values(|p: &[u8]| p@)
}

/// Only the byte stream matters to the key: the parts hash as their
/// concatenation in one part, and no parts hash to the offset basis.
pub proof fn lemma_key_of_byte_stream(parts: Seq<Seq<u8>>)
    ensures
        fnv_bytes(FNV_OFFSET, concat_parts(parts)) == fnv_bytes(FNV_OFFSET, concat_parts(seq![concat_parts(parts)])),
        fnv_bytes(FNV_OFFSET, concat_parts(Seq::<Seq<u8>>::empty())) == FNV_OFFSET,
{
    let one = seq![concat_parts(parts)];
    assert(one.drop_last() =~= Seq::<Seq<u8>>::empty());
    assert(one.last() == concat_parts(parts));
    assert(concat_parts(one.drop_last()) == Seq::<u8>::empty());
    assert(concat_parts(one) == concat_parts(one.drop_last()) + one.last());
    assert(Seq::<u8>::empty() + concat_parts(parts) =~= concat_parts(parts));
    assert(fnv_bytes(FNV_OFFSET, Seq::<u8>::empty()) == FNV_OFFSET);
}

/// Stable 64-bit content key (FNV-1a over the concatenated parts).
pub fn fnv1a64(parts: &[&[u8]]) -> (h: u64)
    ensures
        h == fnv_bytes(FNV_OFFSET, concat_parts(parts_view(parts@))),
{
    let mut h: u64 = FNV_OFFSET;
    let mut i: usize = 0;
    while i < parts.len()
        invariant
            i <= parts.len(),
            h == fnv_bytes(FNV_OFFSET, concat_parts(parts_view(parts@.take(i as int)))),
        decreases parts.len() - i,
    {
        let part: &[u8] = parts[i];
        let ghost before = concat_parts(parts_view(parts@.take(i as int)));
        let mut j: usize = 0;
        while j < part.len()
            invariant
                j <= part.len(),
                h == fnv_bytes(FNV_OFFSET, before + part@.take(j as int)),
            decreases part.len() - j,
        {
            let b = part[j];
            proof {
                assert((before + part@.take(j + 1)).drop_last() =~= before + part@.take(j as int));
            }
            h = (h ^ (b as u64)).wrapping_mul(FNV_PRIME);
            j = j + 1;
        }
        proof {
            assert(part@.take(part@.len() as int) =~= part@);
            assert(parts_view(parts@.take(i + 1)).drop_last() =~= parts_view(parts@.take(i as int)));
        }
        i = i + 1;
    }
    proof {
        assert(parts@.take(parts@.len() as int) =~= parts@);
    }
    h
}

} // verus!
