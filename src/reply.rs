use vstd::prelude::*;
use vstd::string::StringSliceAdditionalSpecFns;
use crate::buffer::{Buffer, le32, le64, K_MAX_MSG, TAG_NIL, TAG_ERR, TAG_STR, TAG_INT, TAG_DBL, TAG_ARR};

verus! {

pub const MSG_TOO_BIG: &'static str = "response is too big";

/// A reply value. A double is carried as its IEEE-754 bits; the items of
/// an array are given already encoded.
pub enum Reply {
    Nil,
    Error(Seq<u8>),
    Str(Seq<u8>),
    Int(i64),
    Dbl(u64),
    Arr(Seq<Seq<u8>>),
}

/// The tagged wire form of a reply value.
pub open spec fn encode(r: Reply) -> Seq<u8> {
    match r {
        Reply::Nil => seq![TAG_NIL],
        Reply::Error(m) => seq![TAG_ERR] + le32(m.len() as u32) + m,
        Reply::Str(s) => seq![TAG_STR] + le32(s.len() as u32) + s,
        Reply::Int(v) => seq![TAG_INT] + le64(v as u64),
        Reply::Dbl(b) => seq![TAG_DBL] + le64(b),
        Reply::Arr(items) => seq![TAG_ARR] + le32(items.len() as u32) + items.flatten(),
    }
}

pub open spec fn err_too_big() -> Seq<u8> {
    MSG_TOO_BIG.spec_bytes()
}

/// `prefix` followed by the frame of a reply body: its length and the body,
/// or, for a body over `K_MAX_MSG` bytes, the frame of an error reply.
pub open spec fn framed(prefix: Seq<u8>, body: Seq<u8>) -> Seq<u8> {
    if body.len() <= K_MAX_MSG {
        prefix + le32(body.len() as u32) + body
    } else {
        let e = encode(Reply::Error(err_too_big()));
        prefix + le32(e.len() as u32) + e
    }
}

pub fn out_nil(buf: &mut Buffer)
    requires
        old(buf).wf(),
    ensures
        final(buf).wf(),
        final(buf)@ == old(buf)@ + encode(Reply::Nil),
{
    buf.append_u8(TAG_NIL);
    assert(old(buf)@.push(TAG_NIL) =~= old(buf)@ + seq![TAG_NIL]);
}

pub fn out_str(buf: &mut Buffer, s: &[u8])
    requires
        old(buf).wf(),
    ensures
        final(buf).wf(),
        final(buf)@ == old(buf)@ + encode(Reply::Str(s@)),
{
    buf.append_u8(TAG_STR);
    buf.append_u32(s.len() as u32);
    buf.append(s);
    assert(final(buf)@ =~= old(buf)@ + encode(Reply::Str(s@)));
}

pub fn out_int(buf: &mut Buffer, val: i64)
    requires
        old(buf).wf(),
    ensures
        final(buf).wf(),
        final(buf)@ == old(buf)@ + encode(Reply::Int(val)),
{
    buf.append_u8(TAG_INT);
    buf.append_i64(val);
    assert(final(buf)@ =~= old(buf)@ + encode(Reply::Int(val)));
}

/// A double reply, from the bits of the double.
pub fn out_dbl(buf: &mut Buffer, bits: u64)
    requires
        old(buf).wf(),
    ensures
        final(buf).wf(),
        final(buf)@ == old(buf)@ + encode(Reply::Dbl(bits)),
{
    buf.append_u8(TAG_DBL);
    buf.append_u64(bits);
    assert(final(buf)@ =~= old(buf)@ + encode(Reply::Dbl(bits)));
}

/// The head of an array reply of `n` items; the items follow.
pub fn out_arr(buf: &mut Buffer, n: u32)
    requires
        old(buf).wf(),
    ensures
        final(buf).wf(),
        final(buf)@ == old(buf)@ + seq![TAG_ARR] + le32(n),
{
    buf.append_u8(TAG_ARR);
    buf.append_u32(n);
    assert(final(buf)@ =~= old(buf)@ + seq![TAG_ARR] + le32(n));
}

pub fn out_err(buf: &mut Buffer, msg: &str)
    requires
        old(buf).wf(),
    ensures
        final(buf).wf(),
        final(buf)@ == old(buf)@ + encode(Reply::Error(msg.spec_bytes())),
{
    let b = msg.as_bytes();
    buf.append_u8(TAG_ERR);
    buf.append_u32(b.len() as u32);
    buf.append(b);
    assert(final(buf)@ =~= old(buf)@ + encode(Reply::Error(msg.spec_bytes())));
}

} // verus!
