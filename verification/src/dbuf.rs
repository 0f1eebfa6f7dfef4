//! The growable byte buffer used for string output: appends accumulate
//! unless the sticky error flag is set, after which writes are no-ops.

use vstd::prelude::*;

verus! {

/// A dynamic byte buffer with a sticky error flag.
pub struct DynBuf {
    pub buf: Vec<u8>,
    pub error: bool,
}

pub fn dbuf_init() -> (r: DynBuf)
    ensures
        r.buf@ == Seq::<u8>::empty(),
        !r.error,
{
    DynBuf { buf: Vec::new(), error: false }
}

/// Append one byte; after an error nothing changes.
pub fn dbuf_putc(d: &mut DynBuf, c: u8)
    ensures
        final(d).error == old(d).error,
        !old(d).error ==> final(d).buf@ == old(d).buf@.push(c),
        old(d).error ==> final(d).buf@ == old(d).buf@,
{
    if !d.error {
        d.buf.push(c);
    }
}

/// Append a byte string; after an error nothing changes.
pub fn dbuf_put(d: &mut DynBuf, data: &Vec<u8>)
    ensures
        final(d).error == old(d).error,
        !old(d).error ==> final(d).buf@ == old(d).buf@ + data@,
        old(d).error ==> final(d).buf@ == old(d).buf@,
{
    if d.error {
        proof {
            assert(d.buf@ =~= old(d).buf@);
        }
        return ;
    }
    let mut i: usize = 0;
    while i < data.len()
        invariant
            i <= data.len(),
            !d.error,
            d.buf@ =~= old(d).buf@ + data@.subrange(0, i as int),
        decreases data.len() - i,
    {
        d.buf.push(data[i]);
        i = i + 1;
    }
    proof {
        assert(d.buf@ =~= old(d).buf@ + data@);
    }
}

/// Record an error; every later write is ignored.
pub fn dbuf_set_error(d: &mut DynBuf)
    ensures
        final(d).error,
        final(d).buf@ == old(d).buf@,
{
    d.error = true;
}

pub fn dbuf_error(d: &DynBuf) -> (r: bool)
    ensures
        r == d.error,
{
    d.error
}

pub fn dbuf_len(d: &DynBuf) -> (r: usize)
    ensures
        r == d.buf@.len(),
{
    d.buf.len()
}

} // verus!
