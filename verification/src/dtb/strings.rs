//! The strings block of a flattened device tree: property names live
//! here, referenced by byte offset.

use vstd::prelude::*;

verus! {

use crate::dtb::stream::{ByteStream, find_nul, lemma_find_nul};

#[derive(Clone, Copy)]
pub struct DtbStrings<'a> {
    buff: &'a [u8],
}

impl<'a> DtbStrings<'a> {
    pub closed spec fn data(self) -> Seq<u8> {
        self.buff@
    }

    pub fn new(buff: &'a [u8]) -> (r: DtbStrings<'a>)
        ensures
            r.data() == buff@,
    {
        DtbStrings { buff }
    }

    pub fn buf(&self) -> (r: &'a [u8])
        ensures
            r@ == self.data(),
    {
        self.buff
    }

    /// The name stored at `offset`: the nul-terminated token starting
    /// there, without its terminator. `None` when the offset is out of
    /// range or no terminator follows.
    pub fn get(&self, offset: usize) -> (r: Option<&'a [u8]>)
        ensures
            match r {
                Some(out) => {
                    &&& offset <= self.data().len()
                    &&& find_nul(self.data().subrange(offset as int, self.data().len() as int))
                        >= 0
                    &&& out@ == self.data().subrange(
                        offset as int,
                        offset + find_nul(
                            self.data().subrange(offset as int, self.data().len() as int),
                        ),
                    )
                },
                None => offset > self.data().len() || find_nul(
                    self.data().subrange(offset as int, self.data().len() as int),
                ) == -1,
            },
    {
        let total = self.buff.len();
        let mut stream = ByteStream::new(self.buff, 0);
        match stream.bytes(offset) {
            Some(_) => {},
            None => {
                return None;
            },
        }
        let ghost tail = self.data().subrange(offset as int, self.data().len() as int);
        proof {
            lemma_find_nul(tail);
        }
        match stream.cstr() {
            Some(out) => {
                proof {
                    assert(out@ =~= self.data().subrange(
                        offset as int,
                        offset + find_nul(tail),
                    ));
                }
                Some(out)
            },
            None => {
                proof {
                    if find_nul(tail) >= 0 {
                        // only an offset overflow could stop the scan,
                        // and offsets here start at zero and stay below
                        // the block's length
                        assert(find_nul(tail) < tail.len());
                        assert(stream.off() + find_nul(tail) + 1 <= total);
                    }
                }
                None
            },
        }
    }
}

} // verus!
