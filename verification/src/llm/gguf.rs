//! GGUF container decoding: a bounds-checked little-endian byte reader and
//! the typed metadata values it yields.

use vstd::prelude::*;
use crate::bytes::le_value;
use crate::text::{lossy_text, utf8_lossy};

verus! {

/// A GGUF metadata value. Floating-point values are kept as their IEEE-754
/// bit patterns.
#[derive(Debug)]
pub enum GgufValue {
    U8(u8),
    I8(i8),
    U16(u16),
    I16(i16),
    U32(u32),
    I32(i32),
    F32(u32),
    Bool(bool),
    Str(String),
    Array(Vec<GgufValue>),
    U64(u64),
    I64(i64),
    F64(u64),
}

/// The plain-value form of a metadata value.
pub enum GVal {
    U8(u8),
    I8(i8),
    U16(u16),
    I16(i16),
    U32(u32),
    I32(i32),
    F32(u32),
    Bool(bool),
    Str(Seq<char>),
    Array(Seq<GVal>),
    U64(u64),
    I64(i64),
    F64(u64),
}

pub open spec fn gval(v: GgufValue) -> GVal
    decreases v, 1nat,
{
    match v {
        GgufValue::U8(x) => GVal::U8(x),
        GgufValue::I8(x) => GVal::I8(x),
        GgufValue::U16(x) => GVal::U16(x),
        GgufValue::I16(x) => GVal::I16(x),
        GgufValue::U32(x) => GVal::U32(x),
        GgufValue::I32(x) => GVal::I32(x),
        GgufValue::F32(x) => GVal::F32(x),
        GgufValue::Bool(x) => GVal::Bool(x),
        GgufValue::Str(s) => GVal::Str(s@),
        GgufValue::Array(items) => GVal::Array(gvals(items@)),
        GgufValue::U64(x) => GVal::U64(x),
        GgufValue::I64(x) => GVal::I64(x),
        GgufValue::F64(x) => GVal::F64(x),
    }
}

pub open spec fn gvals(s: Seq<GgufValue>) -> Seq<GVal>
    decreases s, 0nat,
{
    if s.len() == 0 {
        Seq::empty()
    } else {
        gvals(s.drop_last()).push(gval(s.last()))
    }
}

/// Why reading a GGUF buffer failed.
#[derive(Debug, Clone, Copy, PartialEq, Eq, Structural)]
pub enum GgufError {
    /// Fewer than `needed` bytes remain after `offset`.
    UnexpectedEnd { offset: usize, needed: usize },
    /// The file does not start with the GGUF magic; carries what was read.
    BadMagic(u32),
    /// A container version other than 1 to 3.
    BadVersion(u32),
    /// A metadata value type code outside 0 to 12.
    UnknownValueType(u32),
}

proof fn lemma_le_value_forms(d: Seq<u8>, p: int)
    ensures
        le_value(d, p, 1) == d[p] as nat,
        le_value(d, p, 2) == d[p] as nat + 0x100 * (d[p + 1] as nat),
        le_value(d, p, 4) == d[p] as nat + 0x100 * (d[p + 1] as nat) + 0x10000 * (d[p + 2] as nat) + 0x1000000 * (
        d[p + 3] as nat),
        le_value(d, p, 8) == d[p] as nat + 0x100 * (d[p + 1] as nat) + 0x10000 * (d[p + 2] as nat) + 0x1000000 * (
        d[p + 3] as nat) + 0x1_0000_0000 * (d[p + 4] as nat + 0x100 * (d[p + 5] as nat) + 0x10000 * (d[p + 6] as nat)
            + 0x1000000 * (d[p + 7] as nat)),
{
    reveal_with_fuel(le_value, 9);
}

/// Longest array read from a metadata value (guards against corrupt counts).
pub const MAX_ARRAY_ITEMS: usize = 131_072;

/// The value of type code `t` stored at `p`, and where it ends.
pub open spec fn parse_value(d: Seq<u8>, p: nat, t: u32) -> Option<(GVal, nat)>
    decreases d.len() - p, 0nat, 0nat,
{
    if p > d.len() {
        None
    } else if t == 0 || t == 1 || t == 7 {
        if d.len() - p < 1 {
            None
        } else {
            let b = d[p as int];
            Some((if t == 0 { GVal::U8(b) } else if t == 1 { GVal::I8(b as i8) } else { GVal::Bool(b != 0) }, p + 1))
        }
    } else if t == 2 || t == 3 {
        if d.len() - p < 2 {
            None
        } else {
            let v = le_value(d, p as int, 2) as u16;
            Some((if t == 2 { GVal::U16(v) } else { GVal::I16(v as i16) }, p + 2))
        }
    } else if t == 4 || t == 5 || t == 6 {
        if d.len() - p < 4 {
            None
        } else {
            let v = le_value(d, p as int, 4) as u32;
            Some((if t == 4 { GVal::U32(v) } else if t == 5 { GVal::I32(v as i32) } else { GVal::F32(v) }, p + 4))
        }
    } else if t == 10 || t == 11 || t == 12 {
        if d.len() - p < 8 {
            None
        } else {
            let v = le_value(d, p as int, 8) as u64;
            Some((if t == 10 { GVal::U64(v) } else if t == 11 { GVal::I64(v as i64) } else { GVal::F64(v) }, p + 8))
        }
    } else if t == 8 {
        if d.len() - p < 8 {
            None
        } else {
            let len = (le_value(d, p as int, 8) as u64) as usize;
            if d.len() - (p + 8) < len {
                None
            } else {
                Some((GVal::Str(utf8_lossy(d.subrange(p as int + 8, p + 8 + len))), (p + 8 + len) as nat))
            }
        }
    } else if t == 9 {
        if d.len() - p < 12 {
            None
        } else {
            let it = le_value(d, p as int, 4) as u32;
            let raw = (le_value(d, p as int + 4, 8) as u64) as usize;
            let count = if raw < MAX_ARRAY_ITEMS { raw } else { MAX_ARRAY_ITEMS };
            match parse_items(d, p + 12, it, count as nat) {
                Some((items, e)) => Some((GVal::Array(items), e)),
                None => None,
            }
        }
    } else {
        None
    }
}

/// `c` consecutive values of type `t` starting at `p`, and where they end.
pub open spec fn parse_items(d: Seq<u8>, p: nat, t: u32, c: nat) -> Option<(Seq<GVal>, nat)>
    decreases d.len() - p, 1nat, c,
{
    if p > d.len() {
        None
    } else if c == 0 {
        Some((Seq::empty(), p))
    } else {
        match parse_value(d, p, t) {
            None => None,
            Some((v, p2)) => if p2 < p || p2 > d.len() {
                None
            } else {
                match parse_items(d, p2, t, (c - 1) as nat) {
                    None => None,
                    Some((rest, e)) => Some((seq![v] + rest, e)),
                }
            },
        }
    }
}

/// Bounds-checked little-endian reader over a GGUF buffer.
pub struct GgufReader<'a> {
    data: &'a [u8],
    pos: usize,
}

impl<'a> GgufReader<'a> {
    /// The buffer being read.
    pub closed spec fn bytes(&self) -> Seq<u8> {
        self.data@
    }

    /// The read position.
    pub closed spec fn position(&self) -> nat {
        self.pos as nat
    }

    #[verifier::type_invariant]
    spec fn in_bounds(&self) -> bool {
        self.pos <= self.data@.len()
    }

    pub fn new(data: &'a [u8]) -> (r: Self)
        ensures
            r.bytes() == data@,
            r.position() == 0,
    {
        GgufReader { data, pos: 0 }
    }

    /// The next `n` bytes; fewer remaining is an error that leaves the
    /// position unchanged.
    pub fn read_bytes(&mut self, n: usize) -> (r: Result<&'a [u8], GgufError>)
        ensures
            final(self).bytes() == old(self).bytes(),
            old(self).bytes().len() - old(self).position() < n ==> r == Err::<&[u8], GgufError>(
                GgufError::UnexpectedEnd { offset: old(self).position() as usize, needed: n },
            ) && final(self).position() == old(self).position(),
            old(self).bytes().len() - old(self).position() >= n ==> (r matches Ok(s) && s@ == old(self).bytes().subrange(
                old(self).position() as int,
                old(self).position() + n,
            )) && final(self).position() == old(self).position() + n,
    {
        proof {
            use_type_invariant(&*self);
        }
        if n > self.data.len() - self.pos {
            return Err(GgufError::UnexpectedEnd { offset: self.pos, needed: n });
        }
        let s = &self.data[self.pos..self.pos + n];
        self.pos = self.pos + n;
        Ok(s)
    }

    pub fn read_u8(&mut self) -> (r: Result<u8, GgufError>)
        ensures
            final(self).bytes() == old(self).bytes(),
            old(self).bytes().len() - old(self).position() < 1 ==> r is Err && final(self).position() == old(self).position(),
            old(self).bytes().len() - old(self).position() >= 1 ==> r == Ok::<u8, GgufError>(old(self).bytes()[old(self).position() as int])
                && final(self).position() == old(self).position() + 1,
    {
        let b = self.read_bytes(1)?;
        Ok(b[0])
    }

    pub fn read_u16(&mut self) -> (r: Result<u16, GgufError>)
        ensures
            final(self).bytes() == old(self).bytes(),
            old(self).bytes().len() - old(self).position() < 2 ==> r is Err && final(self).position() == old(self).position(),
            old(self).bytes().len() - old(self).position() >= 2 ==> r == Ok::<u16, GgufError>(
                le_value(old(self).bytes(), old(self).position() as int, 2) as u16,
            ) && final(self).position() == old(self).position() + 2,
    {
        let ghost p: int = self.position() as int;
        let b = self.read_bytes(2)?;
        proof {
            lemma_le_value_forms(old(self).bytes(), p);
            assert(b@[0] == old(self).bytes()[p as int] && b@[1] == old(self).bytes()[p + 1]);
        }
        Ok((b[0] as u16) + (b[1] as u16) * 256)
    }

    pub fn read_u32(&mut self) -> (r: Result<u32, GgufError>)
        ensures
            final(self).bytes() == old(self).bytes(),
            old(self).bytes().len() - old(self).position() < 4 ==> r is Err && final(self).position() == old(self).position(),
            old(self).bytes().len() - old(self).position() >= 4 ==> r == Ok::<u32, GgufError>(
                le_value(old(self).bytes(), old(self).position() as int, 4) as u32,
            ) && final(self).position() == old(self).position() + 4,
    {
        let ghost p: int = self.position() as int;
        let b = self.read_bytes(4)?;
        proof {
            lemma_le_value_forms(old(self).bytes(), p);
            assert(b@[0] == old(self).bytes()[p as int] && b@[1] == old(self).bytes()[p + 1]);
            assert(b@[2] == old(self).bytes()[p + 2] && b@[3] == old(self).bytes()[p + 3]);
        }
        Ok((b[0] as u32) + (b[1] as u32) * 0x100 + (b[2] as u32) * 0x10000 + (b[3] as u32) * 0x1000000)
    }

    pub fn read_u64(&mut self) -> (r: Result<u64, GgufError>)
        ensures
            final(self).bytes() == old(self).bytes(),
            old(self).bytes().len() - old(self).position() < 8 ==> r is Err && final(self).position() == old(self).position(),
            old(self).bytes().len() - old(self).position() >= 8 ==> r == Ok::<u64, GgufError>(
                le_value(old(self).bytes(), old(self).position() as int, 8) as u64,
            ) && final(self).position() == old(self).position() + 8,
    {
        let ghost p: int = self.position() as int;
        let b = self.read_bytes(8)?;
        proof {
            lemma_le_value_forms(old(self).bytes(), p);
            assert(b@[0] == old(self).bytes()[p as int] && b@[1] == old(self).bytes()[p + 1]);
            assert(b@[2] == old(self).bytes()[p + 2] && b@[3] == old(self).bytes()[p + 3]);
            assert(b@[4] == old(self).bytes()[p + 4] && b@[5] == old(self).bytes()[p + 5]);
            assert(b@[6] == old(self).bytes()[p + 6] && b@[7] == old(self).bytes()[p + 7]);
        }
        let lo: u64 = (b[0] as u64) + (b[1] as u64) * 0x100 + (b[2] as u64) * 0x10000 + (b[3] as u64) * 0x1000000;
        let hi: u64 = (b[4] as u64) + (b[5] as u64) * 0x100 + (b[6] as u64) * 0x10000 + (b[7] as u64) * 0x1000000;
        Ok(lo + hi * 0x1_0000_0000)
    }

    /// A length-prefixed (u64) string, decoded lossily from UTF-8.
    pub fn read_string(&mut self) -> (r: Result<String, GgufError>)
        ensures
            final(self).bytes() == old(self).bytes(),
            final(self).position() >= old(self).position(),
            match parse_value(old(self).bytes(), old(self).position(), 8) {
                Some((GVal::Str(s), e)) => (r matches Ok(t) && t@ == s) && final(self).position() == e,
                _ => r is Err,
            },
    {
        let len = self.read_u64()? as usize;
        let b = self.read_bytes(len)?;
        Ok(lossy_text(b))
    }

    /// A metadata value of type code `vtype` (arrays hold at most
    /// `MAX_ARRAY_ITEMS` items; unknown codes are an error).
    pub fn read_value(&mut self, vtype: u32) -> (r: Result<GgufValue, GgufError>)
        ensures
            final(self).bytes() == old(self).bytes(),
            final(self).position() >= old(self).position(),
            match parse_value(old(self).bytes(), old(self).position(), vtype) {
                Some((v, e)) => (r matches Ok(x) && gval(x) == v) && final(self).position() == e,
                None => r is Err,
            },
        decreases old(self).bytes().len() - old(self).position(),
    {
        proof {
            use_type_invariant(&*self);
        }
        let ghost d = self.bytes();
        let ghost p0 = self.position();
        if vtype == 0 || vtype == 1 || vtype == 7 {
            let b = self.read_u8()?;
            return Ok(if vtype == 0 {
                GgufValue::U8(b)
            } else if vtype == 1 {
                GgufValue::I8(b as i8)
            } else {
                GgufValue::Bool(b != 0)
            });
        }
        if vtype == 2 || vtype == 3 {
            let v = self.read_u16()?;
            return Ok(if vtype == 2 { GgufValue::U16(v) } else { GgufValue::I16(v as i16) });
        }
        if vtype == 4 || vtype == 5 || vtype == 6 {
            let v = self.read_u32()?;
            return Ok(if vtype == 4 {
                GgufValue::U32(v)
            } else if vtype == 5 {
                GgufValue::I32(v as i32)
            } else {
                GgufValue::F32(v)
            });
        }
        if vtype == 10 || vtype == 11 || vtype == 12 {
            let v = self.read_u64()?;
            return Ok(if vtype == 10 {
                GgufValue::U64(v)
            } else if vtype == 11 {
                GgufValue::I64(v as i64)
            } else {
                GgufValue::F64(v)
            });
        }
        if vtype == 8 {
            let s = self.read_string()?;
            return Ok(GgufValue::Str(s));
        }
        if vtype != 9 {
            return Err(GgufError::UnknownValueType(vtype));
        }
        if self.data.len() - self.pos < 12 {
            return Err(GgufError::UnexpectedEnd { offset: self.pos, needed: 12 });
        }
        let item_type = self.read_u32()?;
        let raw = self.read_u64()? as usize;
        let count = if raw < MAX_ARRAY_ITEMS { raw } else { MAX_ARRAY_ITEMS };
        let mut items: Vec<GgufValue> = Vec::new();
        let mut k: usize = 0;
        proof {
            assert(parse_value(d, p0, 9) == match parse_items(d, p0 + 12, item_type, count as nat) {
                Some((its, e)) => Some((GVal::Array(its), e)),
                None => None::<(GVal, nat)>,
            });
        }
        while k < count
            invariant
                k <= count,
                vtype == 9,
                self.bytes() == d,
                d == old(self).bytes(),
                p0 == old(self).position(),
                p0 + 12 <= self.position() <= d.len(),
                parse_value(d, p0, 9) == match parse_items(d, p0 + 12, item_type, count as nat) {
                    Some((its, e)) => Some((GVal::Array(its), e)),
                    None => None::<(GVal, nat)>,
                },
                parse_items(d, p0 + 12, item_type, count as nat) == match parse_items(d, self.position(), item_type, (count - k) as nat) {
                    Some((rest, e)) => Some((gvals(items@) + rest, e)),
                    None => None::<(Seq<GVal>, nat)>,
                },
            decreases count - k,
        {
            proof {
                use_type_invariant(&*self);
            }
            let ghost pk = self.position();
            let v = match self.read_value(item_type) {
                Ok(v) => v,
                Err(e) => {
                    proof {
                        assert(parse_value(d, pk, item_type) is None);
                        assert(parse_items(d, pk, item_type, (count - k) as nat) is None);
                        assert(parse_value(d, p0, 9) is None);
                    }
                    return Err(e);
                },
            };
            proof {
                use_type_invariant(&*self);
                assert(gvals(items@.push(v)) =~= gvals(items@).push(gval(v))) by {
                    assert(items@.push(v).drop_last() =~= items@);
                }
                assert(gvals(items@).push(gval(v)) + parse_items(d, self.position(), item_type, (count - k - 1) as nat).unwrap_or((Seq::empty(), 0)).0 =~= gvals(items@) + (seq![gval(v)] + parse_items(d, self.position(), item_type, (count - k - 1) as nat).unwrap_or((Seq::empty(), 0)).0));
            }
            items.push(v);
            k = k + 1;
        }
        proof {
            assert(gvals(items@) + Seq::<GVal>::empty() =~= gvals(items@));
        }
        Ok(GgufValue::Array(items))
    }
}

/// The magic number a GGUF file starts with ("GGUF" read little-endian).
pub const GGUF_MAGIC: u32 = 0x4655_4747;

/// `n` key/value entries starting at `p`: a string key, a u32 type code,
/// then the value.
pub open spec fn parse_kvs(d: Seq<u8>, p: nat, n: nat) -> Option<(Seq<(Seq<char>, GVal)>, nat)>
    decreases n,
{
    if n == 0 {
        Some((Seq::empty(), p))
    } else {
        match parse_kvs(d, p, (n - 1) as nat) {
            None => None,
            Some((prev, q)) => match parse_value(d, q, 8) {
                Some((GVal::Str(key), e1)) => if d.len() < e1 || d.len() - e1 < 4 {
                    None
                } else {
                    let t = le_value(d, e1 as int, 4) as u32;
                    match parse_value(d, e1 + 4, t) {
                        Some((v, e2)) => Some((prev.push((key, v)), e2)),
                        None => None,
                    }
                },
                _ => None,
            },
        }
    }
}

/// `k` little-endian u64 values starting at `p`.
pub open spec fn parse_dims(d: Seq<u8>, p: nat, k: nat) -> Seq<u64> {
    Seq::new(k, |i: int| le_value(d, p + 8 * i, 8) as u64)
}

/// `n` tensor descriptions starting at `p`: a string name, a u32 dimension
/// count, that many u64 dimensions, a u32 type and a u64 offset.
pub open spec fn parse_tensors(d: Seq<u8>, p: nat, n: nat) -> Option<(Seq<(Seq<char>, Seq<u64>)>, nat)>
    decreases n,
{
    if n == 0 {
        Some((Seq::empty(), p))
    } else {
        match parse_tensors(d, p, (n - 1) as nat) {
            None => None,
            Some((prev, q)) => match parse_value(d, q, 8) {
                Some((GVal::Str(name), e1)) => if d.len() < e1 || d.len() - e1 < 4 {
                    None
                } else {
                    let k = (le_value(d, e1 as int, 4) as u32) as usize as nat;
                    if d.len() - (e1 + 4) < 8 * k + 12 {
                        None
                    } else {
                        Some((prev.push((name, parse_dims(d, e1 + 4, k))), e1 + 4 + 8 * k + 12))
                    }
                },
                _ => None,
            },
        }
    }
}

/// The decoded metadata and tensor shapes of a GGUF buffer, or `None` when
/// the buffer is not a complete GGUF header of version 1 to 3.
pub open spec fn gguf_contents(d: Seq<u8>) -> Option<(Seq<(Seq<char>, GVal)>, Seq<(Seq<char>, Seq<u64>)>)> {
    if d.len() < 24 || le_value(d, 0, 4) != GGUF_MAGIC || le_value(d, 4, 4) < 1 || le_value(d, 4, 4) > 3 {
        None
    } else {
        let n_tensors = (le_value(d, 8, 8) as u64) as usize;
        let n_kv = (le_value(d, 16, 8) as u64) as usize;
        match parse_kvs(d, 24, n_kv as nat) {
            None => None,
            Some((kvs, p)) => match parse_tensors(d, p, n_tensors as nat) {
                None => None,
                Some((ts, _)) => Some((kvs, ts)),
            },
        }
    }
}

/// A decoded GGUF header: metadata entries in file order and tensor shapes.
#[derive(Debug)]
pub struct GgufFile {
    pub kv: Vec<(String, GgufValue)>,
    pub tensors: Vec<(String, Vec<u64>)>,
}

pub open spec fn kv_view(kv: Seq<(String, GgufValue)>) -> Seq<(Seq<char>, GVal)> {
    kv.map_values(|e: (String, GgufValue)| (e.0@, gval(e.1)))
}

pub open spec fn tensors_view(ts: Seq<(String, Vec<u64>)>) -> Seq<(Seq<char>, Seq<u64>)> {
    ts.map_values(|e: (String, Vec<u64>)| (e.0@, e.1@))
}

proof fn lemma_kvs_prefix(d: Seq<u8>, p: nat, n: nat, m: nat)
    requires
        m <= n,
        parse_kvs(d, p, n) is Some,
    ensures
        parse_kvs(d, p, m) is Some,
    decreases n,
{
    if m < n {
        lemma_kvs_prefix(d, p, (n - 1) as nat, m);
    }
}

proof fn lemma_tensors_prefix(d: Seq<u8>, p: nat, n: nat, m: nat)
    requires
        m <= n,
        parse_tensors(d, p, n) is Some,
    ensures
        parse_tensors(d, p, m) is Some,
    decreases n,
{
    if m < n {
        lemma_tensors_prefix(d, p, (n - 1) as nat, m);
    }
}

fn read_kvs(rd: &mut GgufReader, n: usize) -> (r: Result<Vec<(String, GgufValue)>, GgufError>)
    ensures
        final(rd).bytes() == old(rd).bytes(),
        match parse_kvs(old(rd).bytes(), old(rd).position(), n as nat) {
            Some((kvs, e)) => (r matches Ok(v) && kv_view(v@) == kvs) && final(rd).position() == e,
            None => r is Err,
        },
{
    let ghost d = rd.bytes();
    let ghost p0 = rd.position();
    let mut kv: Vec<(String, GgufValue)> = Vec::new();
    let mut i: usize = 0;
    while i < n
        invariant
            i <= n,
            rd.bytes() == d,
            d == old(rd).bytes(),
            p0 == old(rd).position(),
            parse_kvs(d, p0, i as nat) == Some((kv_view(kv@), rd.position())),
        decreases n - i,
    {
        let ghost q = rd.position();
        let key = match rd.read_string() {
            Ok(k) => k,
            Err(e) => {
                proof {
                    if parse_kvs(d, p0, n as nat) is Some {
                        lemma_kvs_prefix(d, p0, n as nat, (i + 1) as nat);
                    }
                }
                return Err(e);
            },
        };
        let vtype = match rd.read_u32() {
            Ok(t) => t,
            Err(e) => {
                proof {
                    if parse_kvs(d, p0, n as nat) is Some {
                        lemma_kvs_prefix(d, p0, n as nat, (i + 1) as nat);
                    }
                }
                return Err(e);
            },
        };
        let val = match rd.read_value(vtype) {
            Ok(v) => v,
            Err(e) => {
                proof {
                    if parse_kvs(d, p0, n as nat) is Some {
                        lemma_kvs_prefix(d, p0, n as nat, (i + 1) as nat);
                    }
                }
                return Err(e);
            },
        };
        proof {
            assert(kv_view(kv@.push((key, val))) =~= kv_view(kv@).push((key@, gval(val))));
        }
        kv.push((key, val));
        i = i + 1;
    }
    Ok(kv)
}

fn read_tensors(rd: &mut GgufReader, n: usize) -> (r: Result<Vec<(String, Vec<u64>)>, GgufError>)
    ensures
        final(rd).bytes() == old(rd).bytes(),
        match parse_tensors(old(rd).bytes(), old(rd).position(), n as nat) {
            Some((ts, e)) => (r matches Ok(v) && tensors_view(v@) == ts) && final(rd).position() == e,
            None => r is Err,
        },
{
    let ghost d = rd.bytes();
    let ghost p0 = rd.position();
    let mut tensors: Vec<(String, Vec<u64>)> = Vec::new();
    let mut t: usize = 0;
    while t < n
        invariant
            t <= n,
            rd.bytes() == d,
            d == old(rd).bytes(),
            p0 == old(rd).position(),
            parse_tensors(d, p0, t as nat) == Some((tensors_view(tensors@), rd.position())),
        decreases n - t,
    {
        proof {
            use_type_invariant(&*rd);
        }
        let name = match rd.read_string() {
            Ok(s) => s,
            Err(e) => {
                proof {
                    if parse_tensors(d, p0, n as nat) is Some {
                        lemma_tensors_prefix(d, p0, n as nat, (t + 1) as nat);
                    }
                }
                return Err(e);
            },
        };
        let ghost e1 = rd.position();
        let n_dims = match rd.read_u32() {
            Ok(k) => k as usize,
            Err(e) => {
                proof {
                    if parse_tensors(d, p0, n as nat) is Some {
                        lemma_tensors_prefix(d, p0, n as nat, (t + 1) as nat);
                    }
                }
                return Err(e);
            },
        };
        proof {
            use_type_invariant(&*rd);
        }
        if rd.data.len() - rd.pos < 12 || (rd.data.len() - rd.pos - 12) / 8 < n_dims {
            proof {
                if parse_tensors(d, p0, n as nat) is Some {
                    lemma_tensors_prefix(d, p0, n as nat, (t + 1) as nat);
                }
            }
            return Err(GgufError::UnexpectedEnd { offset: rd.pos, needed: 12 });
        }
        let mut dims: Vec<u64> = Vec::new();
        let mut k: usize = 0;
        while k < n_dims
            invariant
                k <= n_dims,
                rd.bytes() == d,
                rd.position() == e1 + 4 + 8 * k,
                d.len() - (e1 + 4) >= 8 * n_dims + 12,
                dims@ =~= parse_dims(d, e1 + 4, k as nat),
            decreases n_dims - k,
        {
            let v = match rd.read_u64() {
                Ok(v) => v,
                Err(e) => {
                    return Err(e);
                },
            };
            dims.push(v);
            k = k + 1;
        }
        let _dtype = match rd.read_u32() {
            Ok(x) => x,
            Err(e) => {
                return Err(e);
            },
        };
        let _offset = match rd.read_u64() {
            Ok(x) => x,
            Err(e) => {
                return Err(e);
            },
        };
        proof {
            assert(tensors_view(tensors@.push((name, dims))) =~= tensors_view(tensors@).push((name@, dims@)));
        }
        tensors.push((name, dims));
        t = t + 1;
    }
    Ok(tensors)
}

/// Decode the metadata header of a GGUF buffer. Tensor data is not read.
#[verifier::rlimit(40)]
pub fn parse_gguf(data: &[u8]) -> (r: Result<GgufFile, GgufError>)
    ensures
        data@.len() >= 4 && le_value(data@, 0, 4) != GGUF_MAGIC ==> r == Err::<GgufFile, GgufError>(
            GgufError::BadMagic(le_value(data@, 0, 4) as u32),
        ),
        data@.len() >= 8 && le_value(data@, 0, 4) == GGUF_MAGIC && (le_value(data@, 4, 4) < 1 || le_value(data@, 4, 4) > 3)
            ==> r == Err::<GgufFile, GgufError>(GgufError::BadVersion(le_value(data@, 4, 4) as u32)),
        match gguf_contents(data@) {
            Some((kvs, ts)) => r matches Ok(f) && kv_view(f.kv@) == kvs && tensors_view(f.tensors@) == ts,
            None => r is Err,
        },
{
    let ghost d = data@;
    proof {
        lemma_le_value_forms(d, 0);
        lemma_le_value_forms(d, 4);
    }
    let mut rd = GgufReader::new(data);
    let magic = match rd.read_u32() {
        Ok(m) => m,
        Err(e) => return Err(e),
    };
    if magic != GGUF_MAGIC {
        return Err(GgufError::BadMagic(magic));
    }
    let version = match rd.read_u32() {
        Ok(v) => v,
        Err(e) => return Err(e),
    };
    if version < 1 || version > 3 {
        return Err(GgufError::BadVersion(version));
    }
    assert(le_value(d, 0, 4) == GGUF_MAGIC && 1 <= le_value(d, 4, 4) <= 3);
    let n_tensors = match rd.read_u64() {
        Ok(v) => v as usize,
        Err(e) => return Err(e),
    };
    let n_kv = match rd.read_u64() {
        Ok(v) => v as usize,
        Err(e) => return Err(e),
    };
    assert(rd.position() == 24 && rd.bytes() == d);
    assert(n_kv == (le_value(d, 16, 8) as u64) as usize);
    assert(n_tensors == (le_value(d, 8, 8) as u64) as usize);
    let kv = match read_kvs(&mut rd, n_kv) {
        Ok(kv) => kv,
        Err(e) => return Err(e),
    };
    let tensors = match read_tensors(&mut rd, n_tensors) {
        Ok(t) => t,
        Err(e) => return Err(e),
    };
    Ok(GgufFile { kv, tensors })
}

/// The value stored under `key`: the last entry with that key.
pub open spec fn kv_lookup(kvs: Seq<(Seq<char>, GVal)>, key: Seq<char>) -> Option<GVal>
    decreases kvs.len(),
{
    if kvs.len() == 0 {
        None
    } else if kvs.last().0 == key {
        Some(kvs.last().1)
    } else {
        kv_lookup(kvs.drop_last(), key)
    }
}

/// A non-negative integer value as a u64.
pub open spec fn as_u64(v: GVal) -> Option<u64> {
    match v {
        GVal::U8(x) => Some(x as u64),
        GVal::U16(x) => Some(x as u64),
        GVal::U32(x) => Some(x as u64),
        GVal::U64(x) => Some(x),
        GVal::I32(x) => if x >= 0 { Some(x as u64) } else { None },
        GVal::I64(x) => if x >= 0 { Some(x as u64) } else { None },
        _ => None,
    }
}

/// The string items of a list of values, in order.
pub open spec fn string_items(items: Seq<GVal>) -> Seq<Seq<char>>
    decreases items.len(),
{
    if items.len() == 0 {
        Seq::empty()
    } else {
        let prev = string_items(items.drop_last());
        match items.last() {
            GVal::Str(s) => prev.push(s),
            _ => prev,
        }
    }
}

/// The entries holding non-negative integers, as `(key, value)`.
pub open spec fn numeric_entries(kvs: Seq<(Seq<char>, GVal)>) -> Seq<(Seq<char>, u64)>
    decreases kvs.len(),
{
    if kvs.len() == 0 {
        Seq::empty()
    } else {
        let prev = numeric_entries(kvs.drop_last());
        match as_u64(kvs.last().1) {
            Some(n) => prev.push((kvs.last().0, n)),
            None => prev,
        }
    }
}

/// The architecture string: `general.architecture` when it is a string,
/// else "llama".
pub open spec fn arch_of(kvs: Seq<(Seq<char>, GVal)>) -> Seq<char> {
    match kv_lookup(kvs, "general.architecture"@) {
        Some(GVal::Str(s)) => s,
        _ => "llama"@,
    }
}

/// The model name: `general.name` when it is a string, else the
/// architecture string.
pub open spec fn name_of(kvs: Seq<(Seq<char>, GVal)>) -> Seq<char> {
    match kv_lookup(kvs, "general.name"@) {
        Some(GVal::Str(s)) => s,
        _ => arch_of(kvs),
    }
}

/// The vocabulary: the string items of `tokenizer.ggml.tokens` when it is
/// an array, else nothing.
pub open spec fn vocab_of(kvs: Seq<(Seq<char>, GVal)>) -> Seq<Seq<char>> {
    match kv_lookup(kvs, "tokenizer.ggml.tokens"@) {
        Some(GVal::Array(items)) => string_items(items),
        _ => Seq::empty(),
    }
}

/// What a model's metadata says about it: architecture string, name,
/// vocabulary, and the numeric entries.
pub struct ModelInfo {
    pub arch: String,
    pub name: String,
    pub vocab: Vec<String>,
    pub numeric: Vec<(String, u64)>,
}

fn find_kv<'b>(kv: &'b Vec<(String, GgufValue)>, key: &str) -> (r: Option<&'b GgufValue>)
    ensures
        match kv_lookup(kv_view(kv@), key@) {
            Some(v) => r matches Some(x) && gval(*x) == v,
            None => r is None,
        },
{
    let ghost kvv = kv_view(kv@);
    let want = crate::text::chars_of(key);
    let mut i = kv.len();
    proof {
        assert(kvv.take(i as int) =~= kvv);
    }
    while i > 0
        invariant
            i <= kv@.len(),
            kvv == kv_view(kv@),
            want@ == key@,
            kv_lookup(kvv, key@) == kv_lookup(kvv.take(i as int), key@),
        decreases i,
    {
        proof {
            assert(kvv.take(i as int).drop_last() =~= kvv.take(i - 1));
            assert(kvv.take(i as int).last() == (kv@[i - 1].0@, gval(kv@[i - 1].1)));
        }
        let k = crate::text::chars_of(kv[i - 1].0.as_str());
        if crate::text::chars_eq(&k, &want) {
            return Some(&kv[i - 1].1);
        }
        i = i - 1;
    }
    None
}

fn value_as_u64(v: &GgufValue) -> (r: Option<u64>)
    ensures
        r == as_u64(gval(*v)),
{
    match v {
        GgufValue::U8(x) => Some(*x as u64),
        GgufValue::U16(x) => Some(*x as u64),
        GgufValue::U32(x) => Some(*x as u64),
        GgufValue::U64(x) => Some(*x),
        GgufValue::I32(x) => if *x >= 0 { Some(*x as u64) } else { None },
        GgufValue::I64(x) => if *x >= 0 { Some(*x as u64) } else { None },
        _ => None,
    }
}

/// Architecture string, name, vocabulary and numeric metadata of a decoded
/// GGUF header.
pub fn model_info(f: &GgufFile) -> (r: ModelInfo)
    ensures
        r.arch@ == arch_of(kv_view(f.kv@)),
        r.name@ == name_of(kv_view(f.kv@)),
        r.vocab@.map_values(|s: String| s@) == vocab_of(kv_view(f.kv@)),
        r.numeric@.map_values(|e: (String, u64)| (e.0@, e.1)) == numeric_entries(kv_view(f.kv@)),
{
    let ghost kvv = kv_view(f.kv@);
    let arch = match find_kv(&f.kv, "general.architecture") {
        Some(GgufValue::Str(s)) => s.clone(),
        _ => String::from_str("llama"),
    };
    let name = match find_kv(&f.kv, "general.name") {
        Some(GgufValue::Str(s)) => s.clone(),
        _ => arch.clone(),
    };
    let mut vocab: Vec<String> = Vec::new();
    match find_kv(&f.kv, "tokenizer.ggml.tokens") {
        Some(GgufValue::Array(items)) => {
            let mut i: usize = 0;
            while i < items.len()
                invariant
                    i <= items@.len(),
                    vocab@.map_values(|s: String| s@) == string_items(gvals(items@.take(i as int))),
                decreases items@.len() - i,
            {
                proof {
                    assert(items@.take(i + 1).drop_last() =~= items@.take(i as int));
                    assert(items@.take(i + 1).last() == items@[i as int]);
                    assert(gvals(items@.take(i + 1)) == gvals(items@.take(i as int)).push(gval(items@[i as int])));
                    assert(gvals(items@.take(i + 1)).drop_last() =~= gvals(items@.take(i as int)));
                }
                match &items[i] {
                    GgufValue::Str(s) => {
                        let ghost before = vocab@;
                        vocab.push(s.clone());
                        proof {
                            assert(vocab@.map_values(|s: String| s@) =~= before.map_values(|s: String| s@).push(s@));
                        }
                    },
                    _ => {},
                }
                i = i + 1;
            }
            proof {
                assert(items@.take(items@.len() as int) =~= items@);
            }
        },
        _ => {},
    }
    let mut numeric: Vec<(String, u64)> = Vec::new();
    let mut k: usize = 0;
    while k < f.kv.len()
        invariant
            k <= f.kv@.len(),
            kvv == kv_view(f.kv@),
            numeric@.map_values(|e: (String, u64)| (e.0@, e.1)) == numeric_entries(kvv.take(k as int)),
        decreases f.kv@.len() - k,
    {
        proof {
            assert(kvv.take(k + 1).drop_last() =~= kvv.take(k as int));
            assert(kvv.take(k + 1).last() == (f.kv@[k as int].0@, gval(f.kv@[k as int].1)));
        }
        match value_as_u64(&f.kv[k].1) {
            Some(n) => {
                let ghost before = numeric@;
                numeric.push((f.kv[k].0.clone(), n));
                proof {
                    assert(numeric@.map_values(|e: (String, u64)| (e.0@, e.1)) =~= before.map_values(|e: (String, u64)| (e.0@, e.1)).push((f.kv@[k as int].0@, n)));
                }
            },
            None => {},
        }
        k = k + 1;
    }
    proof {
        assert(kvv.take(kvv.len() as int) =~= kvv);
    }
    ModelInfo { arch, name, vocab, numeric }
}

proof fn lemma_kv_lookup_last(kvs: Seq<(Seq<char>, GVal)>, key: Seq<char>, i: int)
    requires
        0 <= i < kvs.len(),
        kvs[i].0 == key,
        forall|j: int| i < j < kvs.len() ==> (#[trigger] kvs[j]).0 != key,
    ensures
        kv_lookup(kvs, key) == Some(kvs[i].1),
    decreases kvs.len(),
{
    if i < kvs.len() - 1 {
        let d = kvs.drop_last();
        assert forall|j: int| i < j < d.len() implies (#[trigger] d[j]).0 != key by {
            assert(d[j] == kvs[j]);
        }
        lemma_kv_lookup_last(d, key, i);
    }
}

proof fn lemma_kv_lookup_absent(kvs: Seq<(Seq<char>, GVal)>, key: Seq<char>)
    requires
        forall|j: int| 0 <= j < kvs.len() ==> (#[trigger] kvs[j]).0 != key,
    ensures
        kv_lookup(kvs, key) is None,
    decreases kvs.len(),
{
    if kvs.len() > 0 {
        let d = kvs.drop_last();
        assert forall|j: int| 0 <= j < d.len() implies (#[trigger] d[j]).0 != key by {
            assert(d[j] == kvs[j]);
        }
        lemma_kv_lookup_absent(d, key);
    }
}

/// The model's name is the string of its last `general.name` entry.
pub proof fn lemma_name_is_general_name(kvs: Seq<(Seq<char>, GVal)>, i: int, s: Seq<char>)
    requires
        0 <= i < kvs.len(),
        kvs[i] == ("general.name"@, GVal::Str(s)),
        forall|j: int| i < j < kvs.len() ==> (#[trigger] kvs[j]).0 != "general.name"@,
    ensures
        name_of(kvs) == s,
{
    lemma_kv_lookup_last(kvs, "general.name"@, i);
}

/// Without a `general.name` entry the model is named by its architecture.
pub proof fn lemma_name_without_general_name(kvs: Seq<(Seq<char>, GVal)>)
    requires
        forall|j: int| 0 <= j < kvs.len() ==> (#[trigger] kvs[j]).0 != "general.name"@,
    ensures
        name_of(kvs) == arch_of(kvs),
{
    lemma_kv_lookup_absent(kvs, "general.name"@);
}

/// The architecture is the string of the last `general.architecture` entry.
pub proof fn lemma_arch_is_general_architecture(kvs: Seq<(Seq<char>, GVal)>, i: int, a: Seq<char>)
    requires
        0 <= i < kvs.len(),
        kvs[i] == ("general.architecture"@, GVal::Str(a)),
        forall|j: int| i < j < kvs.len() ==> (#[trigger] kvs[j]).0 != "general.architecture"@,
    ensures
        arch_of(kvs) == a,
{
    lemma_kv_lookup_last(kvs, "general.architecture"@, i);
}

/// Without a `general.architecture` entry the architecture is "llama".
pub proof fn lemma_arch_defaults_to_llama(kvs: Seq<(Seq<char>, GVal)>)
    requires
        forall|j: int| 0 <= j < kvs.len() ==> (#[trigger] kvs[j]).0 != "general.architecture"@,
    ensures
        arch_of(kvs) == "llama"@,
{
    lemma_kv_lookup_absent(kvs, "general.architecture"@);
}

proof fn lemma_string_items_all(items: Seq<GVal>)
    requires
        forall|k: int| 0 <= k < items.len() ==> (#[trigger] items[k]) is Str,
    ensures
        string_items(items).len() == items.len(),
        forall|k: int| 0 <= k < items.len() ==> items[k] == GVal::Str(#[trigger] string_items(items)[k]),
    decreases items.len(),
{
    if items.len() > 0 {
        let d = items.drop_last();
        assert forall|k: int| 0 <= k < d.len() implies (#[trigger] d[k]) is Str by {
            assert(d[k] == items[k]);
        }
        lemma_string_items_all(d);
        assert(items[items.len() - 1] is Str);
        assert forall|k: int| 0 <= k < items.len() implies items[k] == GVal::Str(#[trigger] string_items(items)[k]) by {
            if k < d.len() {
                assert(d[k] == items[k]);
                assert(string_items(items)[k] == string_items(d)[k]);
            }
        }
    }
}

/// The vocabulary is the list of strings of the last `tokenizer.ggml.tokens`
/// entry, in order, and empty when there is no such entry.
pub proof fn lemma_vocab_is_token_list(kvs: Seq<(Seq<char>, GVal)>, i: int, items: Seq<GVal>)
    requires
        0 <= i < kvs.len(),
        kvs[i] == ("tokenizer.ggml.tokens"@, GVal::Array(items)),
        forall|j: int| i < j < kvs.len() ==> (#[trigger] kvs[j]).0 != "tokenizer.ggml.tokens"@,
        forall|k: int| 0 <= k < items.len() ==> (#[trigger] items[k]) is Str,
    ensures
        vocab_of(kvs).len() == items.len(),
        forall|k: int| 0 <= k < items.len() ==> items[k] == GVal::Str(#[trigger] vocab_of(kvs)[k]),
{
    lemma_kv_lookup_last(kvs, "tokenizer.ggml.tokens"@, i);
    lemma_string_items_all(items);
}

/// Without a `tokenizer.ggml.tokens` entry there is no vocabulary.
pub proof fn lemma_vocab_without_tokens(kvs: Seq<(Seq<char>, GVal)>)
    requires
        forall|j: int| 0 <= j < kvs.len() ==> (#[trigger] kvs[j]).0 != "tokenizer.ggml.tokens"@,
    ensures
        vocab_of(kvs).len() == 0,
{
    lemma_kv_lookup_absent(kvs, "tokenizer.ggml.tokens"@);
}


/// The numeric metadata keeps, under its key, every entry whose value is an
/// unsigned integer, or a signed 32- or 64-bit integer that is not negative,
/// with that value; and it holds nothing else: each of its pairs comes from
/// such an entry.
pub proof fn lemma_numeric_entries_members(kvs: Seq<(Seq<char>, GVal)>)
    ensures
        forall|i: int|
            0 <= i < kvs.len() ==> match (#[trigger] kvs[i]).1 {
                GVal::U8(x) => numeric_entries(kvs).contains((kvs[i].0, x as u64)),
                GVal::U16(x) => numeric_entries(kvs).contains((kvs[i].0, x as u64)),
                GVal::U32(x) => numeric_entries(kvs).contains((kvs[i].0, x as u64)),
                GVal::U64(x) => numeric_entries(kvs).contains((kvs[i].0, x)),
                GVal::I32(x) => x >= 0 ==> numeric_entries(kvs).contains((kvs[i].0, x as u64)),
                GVal::I64(x) => x >= 0 ==> numeric_entries(kvs).contains((kvs[i].0, x as u64)),
                _ => true,
            },
        forall|e: (Seq<char>, u64)|
            numeric_entries(kvs).contains(e) ==> exists|j: int|
                0 <= j < kvs.len() && (#[trigger] kvs[j]).0 == e.0 && match kvs[j].1 {
                    GVal::U8(x) => e.1 == x as u64,
                    GVal::U16(x) => e.1 == x as u64,
                    GVal::U32(x) => e.1 == x as u64,
                    GVal::U64(x) => e.1 == x,
                    GVal::I32(x) => x >= 0 && e.1 == x as u64,
                    GVal::I64(x) => x >= 0 && e.1 == x as u64,
                    _ => false,
                },
    decreases kvs.len(),
{
    if kvs.len() > 0 {
        let d = kvs.drop_last();
        lemma_numeric_entries_members(d);
        let n = numeric_entries(kvs);
        let m = numeric_entries(d);
        let last = kvs.last();
        assert forall|x: (Seq<char>, u64)| m.contains(x) implies n.contains(x) by {
            let k = choose|k: int| 0 <= k < m.len() && m[k] == x;
            assert(n[k] == x);
        }
        assert forall|i: int| 0 <= i < kvs.len() - 1 implies #[trigger] d[i] == kvs[i] by {}
        if as_u64(last.1) is Some {
            assert(n[n.len() - 1] == (last.0, as_u64(last.1)->Some_0));
            assert(n.contains((last.0, as_u64(last.1)->Some_0)));
        }
        assert forall|i: int| 0 <= i < kvs.len() implies match (#[trigger] kvs[i]).1 {
            GVal::U8(x) => n.contains((kvs[i].0, x as u64)),
            GVal::U16(x) => n.contains((kvs[i].0, x as u64)),
            GVal::U32(x) => n.contains((kvs[i].0, x as u64)),
            GVal::U64(x) => n.contains((kvs[i].0, x)),
            GVal::I32(x) => x >= 0 ==> n.contains((kvs[i].0, x as u64)),
            GVal::I64(x) => x >= 0 ==> n.contains((kvs[i].0, x as u64)),
            _ => true,
        } by {
            if i < kvs.len() - 1 {
                assert(d[i] == kvs[i]);
            } else {
                assert(kvs[i] == last);
            }
        }
        assert forall|e: (Seq<char>, u64)| n.contains(e) implies exists|j: int|
            0 <= j < kvs.len() && (#[trigger] kvs[j]).0 == e.0 && match kvs[j].1 {
                GVal::U8(x) => e.1 == x as u64,
                GVal::U16(x) => e.1 == x as u64,
                GVal::U32(x) => e.1 == x as u64,
                GVal::U64(x) => e.1 == x,
                GVal::I32(x) => x >= 0 && e.1 == x as u64,
                GVal::I64(x) => x >= 0 && e.1 == x as u64,
                _ => false,
            } by {
            if m.contains(e) {
                let j = choose|j: int| 0 <= j < d.len() && (#[trigger] d[j]).0 == e.0 && match d[j].1 {
                    GVal::U8(x) => e.1 == x as u64,
                    GVal::U16(x) => e.1 == x as u64,
                    GVal::U32(x) => e.1 == x as u64,
                    GVal::U64(x) => e.1 == x,
                    GVal::I32(x) => x >= 0 && e.1 == x as u64,
                    GVal::I64(x) => x >= 0 && e.1 == x as u64,
                    _ => false,
                };
                assert(d[j] == kvs[j]);
            } else {
                let k = choose|k: int| 0 <= k < n.len() && n[k] == e;
                assert(k == n.len() - 1);
                assert(kvs[kvs.len() - 1] == last);
            }
        }
    }
}

} // verus!
