//! Little-endian byte encoding and the bounds-checked reader.

use vstd::prelude::*;

verus! {

/// Why a buffer could not be read.
#[derive(Copy, Clone, Debug, PartialEq, Eq, Structural)]
pub enum NetError {
    /// The buffer ends inside a field.
    Truncated,
    /// A snapshot section names a pool key this end never registered.
    UnknownPool(u16),
}

/// Two bytes, least significant first.
pub open spec fn le16(x: u16) -> Seq<u8> {
    seq![(x % 256) as u8, (x / 256) as u8]
}

/// Four bytes, least significant first.
pub open spec fn le32(x: u32) -> Seq<u8> {
    seq![
        (x % 256) as u8,
        (x / 0x100 % 256) as u8,
        (x / 0x1_0000 % 256) as u8,
        (x / 0x100_0000) as u8,
    ]
}

/// Eight bytes, least significant first.
pub open spec fn le64(x: u64) -> Seq<u8> {
    le32((x % 0x1_0000_0000) as u32) + le32((x / 0x1_0000_0000) as u32)
}

/// The number two bytes encode.
pub open spec fn un16(s: Seq<u8>) -> u16 {
    (s[0] + s[1] * 256) as u16
}

/// The number four bytes encode.
pub open spec fn un32(s: Seq<u8>) -> u32 {
    (s[0] + s[1] * 0x100 + s[2] * 0x1_0000 + s[3] * 0x100_0000) as u32
}

/// The number eight bytes encode.
pub open spec fn un64(s: Seq<u8>) -> u64 {
    (un32(s.subrange(0, 4)) + un32(s.subrange(4, 8)) * 0x1_0000_0000) as u64
}

/// Reading back what was written.
pub proof fn le16_round_trip(x: u16)
    ensures
        le16(x).len() == 2,
        un16(le16(x)) == x,
{
}

/// Reading back what was written.
pub proof fn le32_round_trip(x: u32)
    ensures
        le32(x).len() == 4,
        un32(le32(x)) == x,
{
}

/// Reading back what was written.
pub proof fn le64_round_trip(x: u64)
    ensures
        le64(x).len() == 8,
        un64(le64(x)) == x,
{
    let lo = (x % 0x1_0000_0000) as u32;
    let hi = (x / 0x1_0000_0000) as u32;
    le32_round_trip(lo);
    le32_round_trip(hi);
    assert(le64(x).subrange(0, 4) =~= le32(lo));
    assert(le64(x).subrange(4, 8) =~= le32(hi));
}

/// Append a `u16`.
pub fn put16(out: &mut Vec<u8>, x: u16)
    ensures
        final(out)@ == old(out)@ + le16(x),
{
    let ghost start = out@;
    out.push((x % 256) as u8);
    out.push((x / 256) as u8);
    assert(out@ =~= start + le16(x));
}

/// Append a `u32`.
pub fn put32(out: &mut Vec<u8>, x: u32)
    ensures
        final(out)@ == old(out)@ + le32(x),
{
    let ghost start = out@;
    out.push((x % 256) as u8);
    out.push((x / 0x100 % 256) as u8);
    out.push((x / 0x1_0000 % 256) as u8);
    out.push((x / 0x100_0000) as u8);
    assert(out@ =~= start + le32(x));
}

/// Append a `u64`.
pub fn put64(out: &mut Vec<u8>, x: u64)
    ensures
        final(out)@ == old(out)@ + le64(x),
{
    let ghost start = out@;
    put32(out, (x % 0x1_0000_0000) as u32);
    put32(out, (x / 0x1_0000_0000) as u32);
    assert(out@ =~= start + le64(x));
}

/// Append bytes.
pub fn put_bytes(out: &mut Vec<u8>, bytes: &[u8])
    ensures
        final(out)@ == old(out)@ + bytes@,
{
    let ghost start = out@;
    out.extend_from_slice(bytes);
    assert(out@ =~= start + bytes@);
}

/// The `u16` at an offset.
pub fn get16(data: &[u8], at: usize) -> (r: u16)
    requires
        at + 2 <= data@.len(),
    ensures
        r == un16(data@.subrange(at as int, at + 2)),
{
    data[at] as u16 + data[at + 1] as u16 * 256
}

/// The `u32` at an offset.
pub fn get32(data: &[u8], at: usize) -> (r: u32)
    requires
        at + 4 <= data@.len(),
    ensures
        r == un32(data@.subrange(at as int, at + 4)),
{
    data[at] as u32 + data[at + 1] as u32 * 0x100 + data[at + 2] as u32 * 0x1_0000 + data[at + 3] as u32
        * 0x100_0000
}

/// The `u64` at an offset.
pub fn get64(data: &[u8], at: usize) -> (r: u64)
    requires
        at + 8 <= data@.len(),
    ensures
        r == un64(data@.subrange(at as int, at + 8)),
{
    proof {
        let s = data@.subrange(at as int, at + 8);
        assert(s.subrange(0, 4) =~= data@.subrange(at as int, at + 4));
        assert(s.subrange(4, 8) =~= data@.subrange(at + 4, at + 8));
    }
    let n: usize = data.len();
    assert(at + 8 <= n);
    get32(data, at) as u64 + get32(data, at + 4) as u64 * 0x1_0000_0000
}

/// Copy of a stretch of a buffer.
pub fn cut(data: &[u8], from: usize, to: usize) -> (r: Vec<u8>)
    requires
        from <= to <= data@.len(),
    ensures
        r@ == data@.subrange(from as int, to as int),
{
    let mut out: Vec<u8> = Vec::with_capacity(to - from);
    let mut i: usize = from;
    while i < to
        invariant
            from <= i <= to <= data@.len(),
            out@ == data@.subrange(from as int, i as int),
        decreases to - i,
    {
        out.push(data[i]);
        i += 1;
        assert(out@ =~= data@.subrange(from as int, i as int));
    }
    out
}

/// A cursor over a buffer; every read checks the bounds.
pub struct Reader<'a> {
    data: &'a [u8],
    at: usize,
}

impl<'a> View for Reader<'a> {
    type V = Seq<u8>;

    /// The bytes not read yet.
    closed spec fn view(&self) -> Seq<u8> {
        self.data@.subrange(self.at as int, self.data@.len() as int)
    }
}

impl<'a> Reader<'a> {
    /// The cursor stays inside its buffer.
    pub closed spec fn wf(&self) -> bool {
        self.at <= self.data@.len()
    }

    /// A cursor at the start of `data`.
    pub fn new(data: &'a [u8]) -> (r: Self)
        ensures
            r.wf(),
            r@ == data@,
    {
        let r = Reader { data, at: 0 };
        assert(r@ =~= data@);
        r
    }

    /// Whether everything was read.
    pub fn is_empty(&self) -> (r: bool)
        requires
            self.wf(),
        ensures
            r == (self@.len() == 0),
    {
        self.at == self.data.len()
    }

    /// The next `n` bytes. A short buffer is an error and moves nothing.
    pub fn bytes(&mut self, n: usize) -> (r: Result<Vec<u8>, NetError>)
        requires
            old(self).wf(),
        ensures
            final(self).wf(),
            match r {
                Ok(head) => n <= old(self)@.len() && head@ == old(self)@.subrange(0, n as int)
                    && final(self)@ == old(self)@.subrange(n as int, old(self)@.len() as int),
                Err(e) => n > old(self)@.len() && e == NetError::Truncated && final(self)@ == old(
                    self)@,
            },
    {
        if self.data.len() - self.at < n {
            return Err(NetError::Truncated);
        }
        let head: Vec<u8> = cut(self.data, self.at, self.at + n);
        let ghost before = self@;
        assert(head@ =~= before.subrange(0, n as int));
        self.at = self.at + n;
        assert(self@ =~= before.subrange(n as int, before.len() as int));
        Ok(head)
    }

    /// The next byte.
    pub fn u8(&mut self) -> (r: Result<u8, NetError>)
        requires
            old(self).wf(),
        ensures
            final(self).wf(),
            match r {
                Ok(x) => 1 <= old(self)@.len() && x == old(self)@[0] && final(self)@ == old(
                    self)@.subrange(1, old(self)@.len() as int),
                Err(e) => 1 > old(self)@.len() && e == NetError::Truncated && final(self)@ == old(
                    self)@,
            },
    {
        if self.data.len() - self.at < 1 {
            return Err(NetError::Truncated);
        }
        let ghost before = self@;
        let x: u8 = self.data[self.at];
        self.at = self.at + 1;
        assert(self@ =~= before.subrange(1, before.len() as int));
        Ok(x)
    }

    /// The next `u16`.
    pub fn u16(&mut self) -> (r: Result<u16, NetError>)
        requires
            old(self).wf(),
        ensures
            final(self).wf(),
            match r {
                Ok(x) => 2 <= old(self)@.len() && x == un16(old(self)@.subrange(0, 2)) && final(
                    self)@ == old(self)@.subrange(2, old(self)@.len() as int),
                Err(e) => 2 > old(self)@.len() && e == NetError::Truncated && final(self)@ == old(
                    self)@,
            },
    {
        if self.data.len() - self.at < 2 {
            return Err(NetError::Truncated);
        }
        let ghost before = self@;
        let x: u16 = get16(self.data, self.at);
        assert(before.subrange(0, 2) =~= self.data@.subrange(self.at as int, self.at + 2));
        self.at = self.at + 2;
        assert(self@ =~= before.subrange(2, before.len() as int));
        Ok(x)
    }

    /// The next `u32`.
    pub fn u32(&mut self) -> (r: Result<u32, NetError>)
        requires
            old(self).wf(),
        ensures
            final(self).wf(),
            match r {
                Ok(x) => 4 <= old(self)@.len() && x == un32(old(self)@.subrange(0, 4)) && final(
                    self)@ == old(self)@.subrange(4, old(self)@.len() as int),
                Err(e) => 4 > old(self)@.len() && e == NetError::Truncated && final(self)@ == old(
                    self)@,
            },
    {
        if self.data.len() - self.at < 4 {
            return Err(NetError::Truncated);
        }
        let ghost before = self@;
        let x: u32 = get32(self.data, self.at);
        assert(before.subrange(0, 4) =~= self.data@.subrange(self.at as int, self.at + 4));
        self.at = self.at + 4;
        assert(self@ =~= before.subrange(4, before.len() as int));
        Ok(x)
    }

    /// The next `u64`.
    pub fn u64(&mut self) -> (r: Result<u64, NetError>)
        requires
            old(self).wf(),
        ensures
            final(self).wf(),
            match r {
                Ok(x) => 8 <= old(self)@.len() && x == un64(old(self)@.subrange(0, 8)) && final(
                    self)@ == old(self)@.subrange(8, old(self)@.len() as int),
                Err(e) => 8 > old(self)@.len() && e == NetError::Truncated && final(self)@ == old(
                    self)@,
            },
    {
        if self.data.len() - self.at < 8 {
            return Err(NetError::Truncated);
        }
        let ghost before = self@;
        let x: u64 = get64(self.data, self.at);
        assert(before.subrange(0, 8) =~= self.data@.subrange(self.at as int, self.at + 8));
        self.at = self.at + 8;
        assert(self@ =~= before.subrange(8, before.len() as int));
        Ok(x)
    }
}

/// Numbers travel lowest byte first, and bytes read as a number write as the
/// same bytes.
pub proof fn numbers_travel_lowest_byte_first(b: Seq<u8>)
    ensures
        b.len() == 2 ==> un16(b) == b[0] + 0x100 * b[1] && le16(un16(b)) == b,
        b.len() == 4 ==> un32(b) == b[0] + 0x100 * b[1] + 0x1_0000 * b[2] + 0x100_0000 * b[3],
        b.len() == 4 ==> le32(un32(b)) == b,
        b.len() == 8 ==> un64(b) == un32(b.take(4)) + 0x1_0000_0000 * un32(b.skip(4)),
{
    if b.len() == 2 {
        assert(le16(un16(b)) =~= b);
    } else if b.len() == 4 {
        four_bytes_write_back(b);
    } else if b.len() == 8 {
        assert(b.take(4) =~= b.subrange(0, 4));
        assert(b.skip(4) =~= b.subrange(4, 8));
    }
}

/// Four bytes read as a number write as the same bytes.
proof fn four_bytes_write_back(b: Seq<u8>)
    requires
        b.len() == 4,
    ensures
        un32(b) == b[0] + 0x100 * b[1] + 0x1_0000 * b[2] + 0x100_0000 * b[3],
        le32(un32(b)) == b,
{
    let x = un32(b) as int;
    let (b0, b1, b2, b3) = (b[0] as int, b[1] as int, b[2] as int, b[3] as int);
    assert(x == b0 + 0x100 * b1 + 0x1_0000 * b2 + 0x100_0000 * b3);
    assert(x / 0x100 == b1 + 0x100 * b2 + 0x1_0000 * b3);
    assert(x / 0x1_0000 == b2 + 0x100 * b3);
    assert(x / 0x100_0000 == b3);
    assert(x % 0x100 == b0);
    assert(x / 0x100 % 0x100 == b1);
    assert(x / 0x1_0000 % 0x100 == b2);
    assert(le32(un32(b)) =~= b);
}

} // verus!
