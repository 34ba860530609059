//! The structure block: a token walk over the device tree's nodes and
//! properties.

use vstd::prelude::*;

verus! {

use crate::dtb::stream::{ByteStream, be_val, find_nul, lemma_find_nul};
use crate::dtb::strings::DtbStrings;
use crate::dtb::Property;

/// Code of the token at the head of a structure stream.
pub open spec fn tok_code(s: Seq<u8>) -> int {
    be_val(s.subrange(0, 4))
}

#[derive(Clone, Copy)]
pub enum DtbToken<'a> {
    /// Start of a node, with its name.
    BeginNode(&'a [u8]),
    EndNode,
    /// A property of the current node.
    Prop(Property<'a>),
    Nop,
}

/// Walks the structure block token by token, resolving property names
/// through the strings block.
#[derive(Clone, Copy)]
pub struct DtbStructParser<'a> {
    stream: ByteStream<'a>,
    strings: DtbStrings<'a>,
}

impl<'a> DtbStructParser<'a> {
    pub closed spec fn spec_stream(self) -> ByteStream<'a> {
        self.stream
    }

    pub closed spec fn spec_strings(self) -> DtbStrings<'a> {
        self.strings
    }

    pub fn new(stream: ByteStream<'a>, strings: DtbStrings<'a>) -> (r: DtbStructParser<'a>)
        ensures
            r.spec_stream() == stream,
            r.spec_strings() == strings,
    {
        DtbStructParser { stream, strings }
    }

    pub fn stream(&self) -> (r: ByteStream<'a>)
        ensures
            r == self.spec_stream(),
    {
        self.stream
    }

    pub fn strings(&self) -> (r: DtbStrings<'a>)
        ensures
            r == self.spec_strings(),
    {
        self.strings
    }

    /// Read the next token. An end-of-tree token, a malformed token or
    /// exhausted input all end the walk with `None`; the error-reporting
    /// twin of this walk tells them apart.
    pub fn next(&mut self) -> (r: Option<DtbToken<'a>>)
        ensures
            final(self).spec_strings() == old(self).spec_strings(),
            old(self).spec_stream().ok() ==> final(self).spec_stream().ok(),
            r is None ==> !old(self).spec_stream().ok() || old(self).spec_stream().data().len()
                < 4 || (tok_code(old(self).spec_stream().data()) != 2 && tok_code(
                old(self).spec_stream().data(),
            ) != 4),
            match r {
                None => true,
                Some(tok) => {
                    let pre = old(self).spec_stream().data();
                    &&& pre.len() >= 4
                    &&& final(self).spec_stream().data().len() < pre.len()
                    &&& match tok {
                        DtbToken::BeginNode(name) => {
                            let tail = pre.subrange(4, pre.len() as int);
                            &&& tok_code(pre) == 1
                            &&& find_nul(tail) >= 0
                            &&& name@ == tail.subrange(0, find_nul(tail))
                        },
                        DtbToken::EndNode => {
                            &&& tok_code(pre) == 2
                            &&& final(self).spec_stream().data() == pre.subrange(
                                4,
                                pre.len() as int,
                            )
                        },
                        DtbToken::Nop => {
                            &&& tok_code(pre) == 4
                            &&& final(self).spec_stream().data() == pre.subrange(
                                4,
                                pre.len() as int,
                            )
                        },
                        DtbToken::Prop(p) => {
                            let plen = be_val(pre.subrange(4, 8));
                            let nameoff = be_val(pre.subrange(8, 12));
                            let names = old(self).spec_strings().data();
                            &&& tok_code(pre) == 3
                            &&& (old(self).spec_stream().ok() ==> p.data.ok())
                            &&& pre.len() >= 12 + plen
                            &&& p.data.data() == pre.subrange(12, 12 + plen)
                            &&& nameoff <= names.len()
                            &&& find_nul(names.subrange(nameoff, names.len() as int)) >= 0
                            &&& p.name@ == names.subrange(
                                nameoff,
                                nameoff + find_nul(names.subrange(nameoff, names.len() as int)),
                            )
                        },
                    }
                },
            },
    {
        let ghost pre = self.stream;
        let code = match self.stream.u32() {
            Some(c) => c,
            None => {
                return None;
            },
        };
        if code == 1 {
            // begin node: its nul-terminated name follows, then padding
            let name = match self.stream.cstr() {
                Some(n) => n,
                None => {
                    self.stream = ByteStream::new(&[], 0);
                    proof {
                        assert(tok_code(old(self).spec_stream().data()) == code);
                    }
                    return None;
                },
            };
            self.stream.align(4);
            proof {
                let tail = pre.data().subrange(4, pre.data().len() as int);
                assert(name@ =~= tail.subrange(0, find_nul(tail)));
                lemma_find_nul(tail);
                assert(self.stream.data().len() < pre.data().len());
            }
            Some(DtbToken::BeginNode(name))
        } else if code == 3 {
            // property: length, name offset, then the value and padding
            let length = match self.stream.u32() {
                Some(v) => v,
                None => {
                    proof {
                        assert(tok_code(old(self).spec_stream().data()) == code);
                    }
                    return None;
                },
            };
            let nameoff = match self.stream.u32() {
                Some(v) => v,
                None => {
                    proof {
                        assert(tok_code(old(self).spec_stream().data()) == code);
                    }
                    return None;
                },
            };
            let offset = self.stream.offset();
            let buf = match self.stream.bytes(length as usize) {
                Some(b) => b,
                None => {
                    proof {
                        assert(tok_code(old(self).spec_stream().data()) == code);
                    }
                    return None;
                },
            };
            let data = ByteStream::new(buf, offset);
            proof {
                let p = pre.data();
                let l = p.len() as int;
                assert(p.subrange(4, l).subrange(0, 4) =~= p.subrange(4, 8));
                assert(p.subrange(4, l).subrange(4, l - 4) =~= p.subrange(8, l));
                assert(p.subrange(8, l).subrange(0, 4) =~= p.subrange(8, 12));
                assert(p.subrange(8, l).subrange(4, l - 8) =~= p.subrange(12, l));
                assert(buf@ =~= p.subrange(12, 12 + length));
            }
            self.stream.align(4);
            let name = match self.strings.get(nameoff as usize) {
                Some(n) => n,
                None => {
                    proof {
                        assert(tok_code(old(self).spec_stream().data()) == code);
                    }
                    return None;
                },
            };
            proof {
                let p = pre.data();
                assert(data.data() == p.subrange(12, 12 + length));
                assert(self.stream.data().len() < p.len());
            }
            Some(DtbToken::Prop(Property::new(name, data)))
        } else if code == 2 {
            Some(DtbToken::EndNode)
        } else if code == 4 {
            Some(DtbToken::Nop)
        } else {
            // end of tree, or an unknown token
            proof {
                assert(pre.data() == old(self).spec_stream().data());
                assert(tok_code(pre.data()) == code);
                assert(tok_code(old(self).spec_stream().data()) != 2 && tok_code(
                    old(self).spec_stream().data(),
                ) != 4);
            }
            None
        }
    }
}

} // verus!
