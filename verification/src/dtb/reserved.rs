//! The memory reservation block: `(address, size)` pairs terminated by
//! an empty entry.

use vstd::prelude::*;

verus! {

use crate::dtb::stream::{ByteStream, be_val};
use crate::dtb::Reserved;

pub struct DtbReserveIter<'a> {
    stream: ByteStream<'a>,
}

impl<'a> DtbReserveIter<'a> {
    pub closed spec fn spec_stream(self) -> ByteStream<'a> {
        self.stream
    }

    pub fn new(stream: ByteStream<'a>) -> (r: DtbReserveIter<'a>)
        ensures
            r.spec_stream() == stream,
    {
        DtbReserveIter { stream }
    }

    pub fn stream(&self) -> (r: ByteStream<'a>)
        ensures
            r == self.spec_stream(),
    {
        self.stream
    }

    /// The next reservation entry: two big-endian 64-bit words. The walk
    /// ends at the empty entry or when the input runs out.
    pub fn next(&mut self) -> (r: Option<Reserved>)
        ensures
            match r {
                Some(e) => {
                    let pre = old(self).spec_stream().data();
                    &&& pre.len() >= 16
                    &&& e.address == be_val(pre.subrange(0, 8))
                    &&& e.size == be_val(pre.subrange(8, 16))
                    &&& !(e.address == 0 && e.size == 0)
                    &&& final(self).spec_stream().data() == pre.subrange(16, pre.len() as int)
                },
                None => !old(self).spec_stream().ok() || old(self).spec_stream().data().len() < 16
                    || (be_val(old(self).spec_stream().data().subrange(0, 8)) == 0 && be_val(
                    old(self).spec_stream().data().subrange(8, 16),
                ) == 0),
            },
    {
        let ghost pre = self.stream.data();
        let address = match self.stream.u64() {
            Some(v) => v,
            None => {
                return None;
            },
        };
        let size = match self.stream.u64() {
            Some(v) => v,
            None => {
                return None;
            },
        };
        proof {
            assert(pre.subrange(8, pre.len() as int).subrange(0, 8) =~= pre.subrange(8, 16));
            assert(pre.subrange(8, pre.len() as int).subrange(
                8,
                pre.len() - 8,
            ) =~= pre.subrange(16, pre.len() as int));
        }
        if address == 0 && size == 0 {
            None
        } else {
            Some(Reserved { address, size })
        }
    }
}

} // verus!
