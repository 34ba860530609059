//! Error-reporting twins of the device-tree walks: the same token and
//! reservation scans, but with each failure named instead of folded into
//! the end of iteration.

use vstd::prelude::*;

verus! {

use crate::dtb::stream::{ByteStream, be_val, find_nul, lemma_find_nul, eq_bytes};
use crate::dtb::{DtbError, Property, Reserved};

/// The strings block with offset lookups that report a missing name.
#[derive(Clone, Copy)]
pub struct DtbStrings<'a> {
    buff: &'a [u8],
}

impl<'a> DtbStrings<'a> {
    pub closed spec fn data(self) -> Seq<u8> {
        self.buff@
    }

    pub fn new(buff: &'a [u8]) -> (r: DtbStrings<'a>)
        ensures
            r.data() == buff@,
    {
        DtbStrings { buff }
    }

    pub fn buf(&self) -> (r: &'a [u8])
        ensures
            r@ == self.data(),
    {
        self.buff
    }

    /// The name stored at `offset`, or the reason there is none.
    pub fn get(&self, offset: usize) -> (r: Result<&'a [u8], DtbError>)
        ensures
            match r {
                Ok(out) => {
                    &&& offset <= self.data().len()
                    &&& find_nul(self.data().subrange(offset as int, self.data().len() as int))
                        >= 0
                    &&& out@ == self.data().subrange(
                        offset as int,
                        offset + find_nul(
                            self.data().subrange(offset as int, self.data().len() as int),
                        ),
                    )
                },
                Err(e) => e == DtbError::InvalidStrings && (offset > self.data().len() || find_nul(
                    self.data().subrange(offset as int, self.data().len() as int),
                ) == -1),
            },
    {
        let plain = crate::dtb::strings::DtbStrings::new(self.buff);
        match plain.get(offset) {
            Some(out) => Ok(out),
            None => Err(DtbError::InvalidStrings),
        }
    }
}

/// The reservation walk, with truncated input reported.
pub struct DtbReserveParser<'a> {
    stream: ByteStream<'a>,
}

impl<'a> DtbReserveParser<'a> {
    pub closed spec fn spec_stream(self) -> ByteStream<'a> {
        self.stream
    }

    pub fn new(stream: ByteStream<'a>) -> (r: DtbReserveParser<'a>)
        ensures
            r.spec_stream() == stream,
    {
        DtbReserveParser { stream }
    }

    /// The next reservation entry, `Ok(None)` at the terminating empty
    /// entry, or an error when the block ends without one.
    pub fn next(&mut self) -> (r: Result<Option<Reserved>, DtbError>)
        ensures
            match r {
                Ok(Some(e)) => {
                    let pre = old(self).spec_stream().data();
                    &&& pre.len() >= 16
                    &&& e.address == be_val(pre.subrange(0, 8))
                    &&& e.size == be_val(pre.subrange(8, 16))
                    &&& !(e.address == 0 && e.size == 0)
                    &&& final(self).spec_stream().data() == pre.subrange(16, pre.len() as int)
                },
                Ok(None) => old(self).spec_stream().data().len() >= 16 && be_val(
                    old(self).spec_stream().data().subrange(0, 8),
                ) == 0 && be_val(old(self).spec_stream().data().subrange(8, 16)) == 0,
                Err(e) => e == DtbError::InvalidReserved && (!old(self).spec_stream().ok() || old(
                    self,
                ).spec_stream().data().len() < 16),
            },
    {
        let ghost pre = self.stream.data();
        let address = match self.stream.u64() {
            Some(v) => v,
            None => {
                return Err(DtbError::InvalidReserved);
            },
        };
        let size = match self.stream.u64() {
            Some(v) => v,
            None => {
                return Err(DtbError::InvalidReserved);
            },
        };
        proof {
            assert(pre.subrange(8, pre.len() as int).subrange(0, 8) =~= pre.subrange(8, 16));
            assert(pre.subrange(8, pre.len() as int).subrange(
                8,
                pre.len() - 8,
            ) =~= pre.subrange(16, pre.len() as int));
        }
        if address == 0 && size == 0 {
            Ok(None)
        } else {
            Ok(Some(Reserved { address, size }))
        }
    }
}

/// A token of the error-reporting structure walk.
#[derive(Clone, Copy)]
pub enum Tok<'a> {
    BeginNode(&'a [u8]),
    EndNode,
    Prop(Property<'a>),
    Nop,
}

/// The structure walk, with each malformed token reported.
#[derive(Clone, Copy)]
pub struct DtbStructParser<'a> {
    stream: ByteStream<'a>,
    strings: DtbStrings<'a>,
}

impl<'a> DtbStructParser<'a> {
    pub closed spec fn spec_stream(self) -> ByteStream<'a> {
        self.stream
    }

    pub closed spec fn spec_strings(self) -> DtbStrings<'a> {
        self.strings
    }

    pub fn new(stream: ByteStream<'a>, strings: DtbStrings<'a>) -> (r: DtbStructParser<'a>)
        ensures
            r.spec_stream() == stream,
            r.spec_strings() == strings,
    {
        DtbStructParser { stream, strings }
    }

    pub fn stream(&self) -> (r: ByteStream<'a>)
        ensures
            r == self.spec_stream(),
    {
        self.stream
    }

    pub fn strings(&self) -> (r: DtbStrings<'a>)
        ensures
            r == self.spec_strings(),
    {
        self.strings
    }

    /// The next token; `Ok(None)` at the end-of-tree token, an error for
    /// a malformed one.
    pub fn next(&mut self) -> (r: Result<Option<Tok<'a>>, DtbError>)
        ensures
            final(self).spec_strings() == old(self).spec_strings(),
            old(self).spec_stream().ok() ==> final(self).spec_stream().ok(),
            match r {
                Ok(Some(_)) => final(self).spec_stream().data().len() < old(
                    self,
                ).spec_stream().data().len(),
                Ok(None) => old(self).spec_stream().data().len() >= 4 && be_val(
                    old(self).spec_stream().data().subrange(0, 4),
                ) == 9,
                Err(DtbError::InvalidStructTok(c)) => old(self).spec_stream().data().len() >= 4
                    && c == be_val(old(self).spec_stream().data().subrange(0, 4)) && c != 1 && c
                    != 2 && c != 3 && c != 4 && c != 9,
                Err(DtbError::InvalidStruct) => true,
                Err(DtbError::InvalidStrings) => true,
                Err(e) => false,
            },
    {
        let code = match self.stream.u32() {
            Some(c) => c,
            None => {
                return Err(DtbError::InvalidStruct);
            },
        };
        if code == 1 {
            let ghost mid = self.stream;
            let name = match self.stream.cstr() {
                Some(n) => n,
                None => {
                    return Err(DtbError::InvalidStruct);
                },
            };
            self.stream.align(4);
            proof {
                lemma_find_nul(mid.data());
                assert(self.stream.data().len() < old(self).spec_stream().data().len());
            }
            Ok(Some(Tok::BeginNode(name)))
        } else if code == 3 {
            let length = match self.stream.u32() {
                Some(v) => v,
                None => {
                    return Err(DtbError::InvalidStruct);
                },
            };
            let nameoff = match self.stream.u32() {
                Some(v) => v,
                None => {
                    return Err(DtbError::InvalidStruct);
                },
            };
            let offset = self.stream.offset();
            let buf = match self.stream.bytes(length as usize) {
                Some(b) => b,
                None => {
                    return Err(DtbError::InvalidStruct);
                },
            };
            let stream = ByteStream::new(buf, offset);
            self.stream.align(4);
            let name = match self.strings.get(nameoff as usize) {
                Ok(n) => n,
                Err(e) => {
                    return Err(e);
                },
            };
            proof {
                assert(self.stream.data().len() < old(self).spec_stream().data().len());
            }
            Ok(Some(Tok::Prop(Property::new(name, stream))))
        } else if code == 2 {
            Ok(Some(Tok::EndNode))
        } else if code == 4 {
            Ok(Some(Tok::Nop))
        } else if code == 9 {
            Ok(None)
        } else {
            Err(DtbError::InvalidStructTok(code))
        }
    }
}

/// The properties of one node, with errors reported; stops at the first
/// child or the node's end.
#[derive(Clone, Copy)]
pub struct DtbNodePropertyParser<'a>(pub DtbStructParser<'a>);

impl<'a> DtbNodePropertyParser<'a> {
    pub closed spec fn spec_parser(self) -> DtbStructParser<'a> {
        self.0
    }

    pub fn new(dtb_struct_parser: DtbStructParser<'a>) -> (r: DtbNodePropertyParser<'a>)
        ensures
            r.spec_parser() == dtb_struct_parser,
    {
        DtbNodePropertyParser(dtb_struct_parser)
    }

    /// The next property, or `Ok(None)` at the node's boundary.
    pub fn next(&mut self) -> (r: Result<Option<Property<'a>>, DtbError>)
        ensures
            match r {
                Ok(Some(_)) => final(self).spec_parser().spec_stream().data().len() < old(
                    self,
                ).spec_parser().spec_stream().data().len(),
                _ => true,
            },
    {
        loop
            invariant
                self.spec_parser().spec_stream().data().len() <= old(
                    self,
                ).spec_parser().spec_stream().data().len(),
            decreases self.spec_parser().spec_stream().data().len(),
        {
            match self.0.next() {
                Ok(Some(Tok::BeginNode(_))) => {
                    return Ok(None);
                },
                Ok(Some(Tok::EndNode)) => {
                    return Ok(None);
                },
                Ok(Some(Tok::Prop(property))) => {
                    return Ok(Some(property));
                },
                Ok(Some(Tok::Nop)) => {},
                Ok(None) => {
                    return Ok(None);
                },
                Err(e) => {
                    return Err(e);
                },
            }
        }
    }

    /// The value of this node's first property named `name`, or
    /// `Ok(None)` when it has no such property.
    pub fn find(self, name: &[u8]) -> (r: Result<Option<ByteStream<'a>>, DtbError>) {
        let mut it = self;
        loop
            decreases it.spec_parser().spec_stream().data().len(),
        {
            match it.next() {
                Ok(Some(prop)) => {
                    if eq_bytes(prop.name, name) {
                        return Ok(Some(prop.data));
                    }
                },
                Ok(None) => {
                    return Ok(None);
                },
                Err(e) => {
                    return Err(e);
                },
            }
        }
    }

    /// The value of this node's first property named `name`; its absence
    /// is an error.
    pub fn expect(self, name: &[u8]) -> (r: Result<ByteStream<'a>, DtbError>) {
        match self.find(name) {
            Ok(Some(stream)) => Ok(stream),
            Ok(None) => Err(DtbError::ExpectedProperty),
            Err(e) => Err(e),
        }
    }
}

} // verus!
