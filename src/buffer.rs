use vstd::prelude::*;
use vstd::string::{StringSliceAdditionalSpecFns, is_ascii};
use crate::reply::{Reply, encode, framed, err_too_big, out_err, MSG_TOO_BIG};

verus! {

/// Largest body that a frame may carry, in bytes.
pub const K_MAX_MSG: usize = 4096;

/// Reply tags, the first byte of every encoded value.
pub const TAG_NIL: u8 = 0;
pub const TAG_ERR: u8 = 1;
pub const TAG_STR: u8 = 2;
pub const TAG_INT: u8 = 3;
pub const TAG_DBL: u8 = 4;
pub const TAG_ARR: u8 = 5;

/// The four little-endian bytes of `x`.
pub open spec fn le32(x: u32) -> Seq<u8> {
    seq![
        (x & 0xff) as u8,
        ((x >> 8u32) & 0xff) as u8,
        ((x >> 16u32) & 0xff) as u8,
        ((x >> 24u32) & 0xff) as u8,
    ]
}

/// The eight little-endian bytes of `x`.
pub open spec fn le64(x: u64) -> Seq<u8> {
    seq![
        (x & 0xff) as u8,
        ((x >> 8u64) & 0xff) as u8,
        ((x >> 16u64) & 0xff) as u8,
        ((x >> 24u64) & 0xff) as u8,
        ((x >> 32u64) & 0xff) as u8,
        ((x >> 40u64) & 0xff) as u8,
        ((x >> 48u64) & 0xff) as u8,
        ((x >> 56u64) & 0xff) as u8,
    ]
}

/// The number that four little-endian bytes stand for.
pub open spec fn from_le32(b: Seq<u8>) -> nat {
    b[0] as nat + 256 * b[1] as nat + 65536 * b[2] as nat + 16777216 * b[3] as nat
}

pub fn le32_bytes(x: u32) -> (r: [u8; 4])
    ensures
        r@ == le32(x),
{
    let r = [
        (x & 0xff) as u8,
        ((x >> 8u32) & 0xff) as u8,
        ((x >> 16u32) & 0xff) as u8,
        ((x >> 24u32) & 0xff) as u8,
    ];
    assert(r@ =~= le32(x));
    r
}

pub fn le64_bytes(x: u64) -> (r: [u8; 8])
    ensures
        r@ == le64(x),
{
    let r = [
        (x & 0xff) as u8,
        ((x >> 8u64) & 0xff) as u8,
        ((x >> 16u64) & 0xff) as u8,
        ((x >> 24u64) & 0xff) as u8,
        ((x >> 32u64) & 0xff) as u8,
        ((x >> 40u64) & 0xff) as u8,
        ((x >> 48u64) & 0xff) as u8,
        ((x >> 56u64) & 0xff) as u8,
    ];
    assert(r@ =~= le64(x));
    r
}

/// Reads the length that the first four bytes of `b` encode.
pub fn read_le32(b: &[u8]) -> (r: u32)
    requires
        b@.len() >= 4,
    ensures
        r as nat == from_le32(b@),
{
    let r = (b[0] as u32) + 256 * (b[1] as u32) + 65536 * (b[2] as u32) + 16777216 * (b[3] as u32);
    r
}

proof fn lemma_too_big_len()
    ensures
        err_too_big().len() == 19,
{
    reveal_strlit("response is too big");
    assert(is_ascii(MSG_TOO_BIG));
}

/// A byte queue: appended at the tail, consumed from the head.
pub struct Buffer {
    data: Vec<u8>,
    start: usize,
}

impl View for Buffer {
    type V = Seq<u8>;

    closed spec fn view(&self) -> Seq<u8> {
        self.data@.subrange(self.start as int, self.data@.len() as int)
    }
}

impl Buffer {
    pub closed spec fn wf(&self) -> bool {
        self.start <= self.data@.len()
    }

    pub fn new() -> (r: Self)
        ensures
            r.wf(),
            r@ == Seq::<u8>::empty(),
    {
        Self::with_capacity(4096)
    }

    pub fn with_capacity(capacity: usize) -> (r: Self)
        ensures
            r.wf(),
            r@ == Seq::<u8>::empty(),
    {
        let r = Buffer { data: Vec::with_capacity(capacity), start: 0 };
        assert(r@ =~= Seq::<u8>::empty());
        r
    }

    /// The bytes held, first to last.
    pub fn data(&self) -> (r: &[u8])
        requires
            self.wf(),
        ensures
            r@ == self@,
    {
        vstd::slice::slice_subrange(self.data.as_slice(), self.start, self.data.len())
    }

    pub fn len(&self) -> (r: usize)
        requires
            self.wf(),
        ensures
            r == self@.len(),
    {
        self.data.len() - self.start
    }

    pub fn is_empty(&self) -> (r: bool)
        requires
            self.wf(),
        ensures
            r == (self@.len() == 0),
    {
        self.start == self.data.len()
    }

    /// Appends `bytes` at the tail.
    pub fn append(&mut self, bytes: &[u8])
        requires
            old(self).wf(),
        ensures
            final(self).wf(),
            final(self)@ == old(self)@ + bytes@,
    {
        if self.start > 0 && self.start >= self.data.len() / 2 {
            self.make_room(bytes.len());
        }
        let ghost before = self@;
        let mut i: usize = 0;
        while i < bytes.len()
            invariant
                self.wf(),
                i <= bytes@.len(),
                self@ == before + bytes@.subrange(0, i as int),
            decreases bytes@.len() - i,
        {
            let ghost pre = self.data@;
            self.data.push(bytes[i]);
            assert(self@ =~= pre.subrange(self.start as int, pre.len() as int).push(bytes@[i as int]));
            assert(bytes@.subrange(0, i + 1) =~= bytes@.subrange(0, i as int).push(bytes@[i as int]));
            assert(self@ =~= before + bytes@.subrange(0, i + 1));
            i = i + 1;
        }
        assert(bytes@.subrange(0, i as int) =~= bytes@);
    }

    /// Removes the first `n` bytes.
    pub fn consume(&mut self, n: usize)
        requires
            old(self).wf(),
            n <= old(self)@.len(),
        ensures
            final(self).wf(),
            final(self)@ == old(self)@.subrange(n as int, old(self)@.len() as int),
    {
        let dl = self.data.len();
        self.start = self.start + n;
        if self.start == self.data.len() {
            self.data.clear();
            self.start = 0;
        }
        assert(self@ =~= old(self)@.subrange(n as int, old(self)@.len() as int));
    }

    /// The first `n` bytes, when that many are held.
    pub fn peek(&self, n: usize) -> (r: Option<&[u8]>)
        requires
            self.wf(),
        ensures
            n <= self@.len() ==> r.is_some() && r.unwrap()@ == self@.subrange(0, n as int),
            n > self@.len() ==> r.is_none(),
    {
        let dl = self.data.len();
        if n <= self.len() {
            let s = vstd::slice::slice_subrange(self.data.as_slice(), self.start, self.start + n);
            assert(s@ =~= self@.subrange(0, n as int));
            Some(s)
        } else {
            None
        }
    }

    /// Moves the held bytes to the front of the storage, so that the space
    /// that consumed bytes took is reused by later appends.
    pub fn make_room(&mut self, needed: usize)
        requires
            old(self).wf(),
        ensures
            final(self).wf(),
            final(self)@ == old(self)@,
    {
        let len = self.len();
        let mut fresh: Vec<u8> = Vec::with_capacity(len + (if needed <= usize::MAX - len { needed } else { 0 }));
        let mut i: usize = self.start;
        while i < self.data.len()
            invariant
                self.wf(),
                *self == *old(self),
                self.start <= i <= self.data@.len(),
                fresh@ == self.data@.subrange(self.start as int, i as int),
            decreases self.data@.len() - i,
        {
            fresh.push(self.data[i]);
            assert(fresh@ =~= self.data@.subrange(self.start as int, i + 1));
            i = i + 1;
        }
        self.data = fresh;
        self.start = 0;
        assert(self@ =~= old(self)@);
    }

    /// Reserves four bytes for a frame length and returns their position.
    pub fn response_begin(&mut self) -> (header_pos: usize)
        requires
            old(self).wf(),
        ensures
            final(self).wf(),
            header_pos == old(self)@.len(),
            final(self)@ == old(self)@ + le32(0),
    {
        let header_pos = self.len();
        self.append_u32(0);
        header_pos
    }

    /// Bytes written after the four length bytes at `header_pos`.
    pub fn response_size(&self, header_pos: usize) -> (r: usize)
        requires
            self.wf(),
            header_pos + 4 <= self@.len(),
        ensures
            r == self@.len() - header_pos - 4,
    {
        self.len() - header_pos - 4
    }

    /// Writes the frame length at `header_pos`; a body over `K_MAX_MSG`
    /// bytes is replaced by an error reply.
    pub fn response_end(&mut self, header_pos: usize)
        requires
            old(self).wf(),
            header_pos + 4 <= old(self)@.len(),
        ensures
            final(self).wf(),
            final(self)@ == framed(
                old(self)@.subrange(0, header_pos as int),
                old(self)@.subrange(header_pos + 4, old(self)@.len() as int),
            ),
    {
        let ghost body = old(self)@.subrange(header_pos + 4, old(self)@.len() as int);
        let mut msg_size = self.response_size(header_pos);
        let dl = self.data.len();
        if msg_size > K_MAX_MSG {
            self.data.truncate(self.start + header_pos + 4);
            assert(self@ =~= old(self)@.subrange(0, header_pos + 4));
            out_err(self, MSG_TOO_BIG);
            msg_size = self.response_size(header_pos);
        }
        let ghost mid = self@;
        let ghost st = self.start;
        let bytes = le32_bytes(msg_size as u32);
        let mut i: usize = 0;
        while i < 4
            invariant
                self.wf(),
                self@.len() == mid.len(),
                header_pos + 4 <= mid.len(),
                self.start == st,
                i <= 4,
                bytes@ == le32(msg_size as u32),
                forall|j: int| 0 <= j < mid.len() && !(header_pos <= j < header_pos + i) ==> self@[j] == mid[j],
                forall|j: int| header_pos <= j < header_pos + i ==> self@[j] == bytes@[j - header_pos],
            decreases 4 - i,
        {
            let dl = self.data.len();
            let ghost v0 = self@;
            self.data.set(self.start + header_pos + i, bytes[i]);
            assert(self@ =~= v0.update(header_pos + i, bytes@[i as int]));
            i = i + 1;
        }
        proof {
            let pre = old(self)@.subrange(0, header_pos as int);
            assert(self@ =~= mid.subrange(0, header_pos as int) + le32(msg_size as u32)
                + mid.subrange(header_pos + 4, mid.len() as int));
            if body.len() <= K_MAX_MSG {
                assert(mid =~= old(self)@);
                assert(mid.subrange(0, header_pos as int) =~= pre);
                assert(mid.subrange(header_pos + 4, mid.len() as int) =~= body);
            } else {
                let e = encode(Reply::Error(err_too_big()));
                lemma_too_big_len();
                assert(mid =~= old(self)@.subrange(0, header_pos + 4) + e);
                assert(mid.subrange(0, header_pos as int) =~= pre);
                assert(mid.subrange(header_pos + 4, mid.len() as int) =~= e);
            }
        }
    }

    pub fn append_u8(&mut self, b: u8)
        requires
            old(self).wf(),
        ensures
            final(self).wf(),
            final(self)@ == old(self)@.push(b),
    {
        let a = [b];
        self.append(&a);
        assert(a@ =~= seq![b]);
    }

    pub fn append_u32(&mut self, x: u32)
        requires
            old(self).wf(),
        ensures
            final(self).wf(),
            final(self)@ == old(self)@ + le32(x),
    {
        let a = le32_bytes(x);
        self.append(&a);
    }

    pub fn append_i64(&mut self, x: i64)
        requires
            old(self).wf(),
        ensures
            final(self).wf(),
            final(self)@ == old(self)@ + le64(x as u64),
    {
        let a = le64_bytes(x as u64);
        self.append(&a);
    }

    pub fn append_u64(&mut self, x: u64)
        requires
            old(self).wf(),
        ensures
            final(self).wf(),
            final(self)@ == old(self)@ + le64(x),
    {
        let a = le64_bytes(x);
        self.append(&a);
    }

    /// Starts an array reply whose count is written later; returns the
    /// position of its tag.
    pub fn out_begin_arr(&mut self) -> (ctx: usize)
        requires
            old(self).wf(),
        ensures
            final(self).wf(),
            ctx == old(self)@.len(),
            final(self)@ == old(self)@.push(TAG_ARR) + le32(0),
    {
        let ctx = self.len();
        self.append_u8(TAG_ARR);
        self.append_u32(0);
        ctx
    }

    /// Writes `count` into the array reply that starts at `ctx`.
    pub fn out_end_arr(&mut self, ctx: usize, count: u32)
        requires
            old(self).wf(),
            ctx + 5 <= old(self)@.len(),
            old(self)@[ctx as int] == TAG_ARR,
        ensures
            final(self).wf(),
            final(self)@ == old(self)@.subrange(0, ctx + 1) + le32(count)
                + old(self)@.subrange(ctx + 5, old(self)@.len() as int),
    {
        let bytes = le32_bytes(count);
        let mut i: usize = 0;
        while i < 4
            invariant
                self.wf(),
                self@.len() == old(self)@.len(),
                ctx + 5 <= old(self)@.len(),
                self.start == old(self).start,
                i <= 4,
                bytes@ == le32(count),
                forall|j: int| 0 <= j < self@.len() && !(ctx + 1 <= j < ctx + 1 + i) ==> self@[j] == old(self)@[j],
                forall|j: int| ctx + 1 <= j < ctx + 1 + i ==> self@[j] == bytes@[j - ctx - 1],
            decreases 4 - i,
        {
            let dl = self.data.len();
            let ghost v0 = self@;
            self.data.set(self.start + ctx + 1 + i, bytes[i]);
            assert(self@ =~= v0.update(ctx + 1 + i, bytes@[i as int]));
            i = i + 1;
        }
        assert(self@ =~= old(self)@.subrange(0, ctx + 1) + le32(count)
            + old(self)@.subrange(ctx + 5, old(self)@.len() as int));
    }

    pub fn extend_from_slice(&mut self, bytes: &[u8])
        requires
            old(self).wf(),
        ensures
            final(self).wf(),
            final(self)@ == old(self)@ + bytes@,
    {
        self.append(bytes);
    }

    pub fn drain_front(&mut self, n: usize)
        requires
            old(self).wf(),
            n <= old(self)@.len(),
        ensures
            final(self).wf(),
            final(self)@ == old(self)@.subrange(n as int, old(self)@.len() as int),
    {
        self.consume(n);
    }
}

} // verus!
