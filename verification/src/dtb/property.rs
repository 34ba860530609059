//! Property iterators over the structure block.

use vstd::prelude::*;

verus! {

use crate::dtb::structure::{DtbStructParser, DtbToken};
use crate::dtb::stream::{ByteStream, eq_bytes};
use crate::dtb::Property;

/// The properties of the node the parser is positioned in; stops at the
/// first child node.
#[derive(Clone, Copy)]
pub struct DtbPropertyIter<'a>(pub DtbStructParser<'a>);

impl<'a> DtbPropertyIter<'a> {
    pub closed spec fn spec_parser(self) -> DtbStructParser<'a> {
        self.0
    }

    pub fn new(dtb_struct_parser: DtbStructParser<'a>) -> (r: DtbPropertyIter<'a>)
        ensures
            r.spec_parser() == dtb_struct_parser,
    {
        DtbPropertyIter(dtb_struct_parser)
    }

    /// The next property of this node; `None` at the first child, the
    /// node's end, or the end of input.
    pub fn next(&mut self) -> (r: Option<Property<'a>>)
        ensures
            match r {
                Some(_) => final(self).spec_parser().spec_stream().data().len() < old(
                    self,
                ).spec_parser().spec_stream().data().len(),
                None => true,
            },
    {
        loop
            invariant
                self.spec_parser().spec_stream().data().len() <= old(
                    self,
                ).spec_parser().spec_stream().data().len(),
            decreases self.spec_parser().spec_stream().data().len(),
        {
            match self.0.next() {
                Some(DtbToken::BeginNode(_)) => {
                    return None;
                },
                Some(DtbToken::EndNode) => {
                    return None;
                },
                Some(DtbToken::Prop(property)) => {
                    return Some(property);
                },
                Some(DtbToken::Nop) => {},
                None => {
                    return None;
                },
            }
        }
    }

    /// The value of this node's first property named `name`.
    pub fn find(self, name: &[u8]) -> (r: Option<ByteStream<'a>>) {
        let mut it = self;
        loop
            decreases it.spec_parser().spec_stream().data().len(),
        {
            match it.next() {
                Some(prop) => {
                    if eq_bytes(prop.name, name) {
                        return Some(prop.data);
                    }
                },
                None => {
                    return None;
                },
            }
        }
    }
}

/// The shared face of the property walks: anything that yields
/// properties in document order.
pub trait DtbProperties<'a> {
    /// The next property, or `None` at the walk's end.
    fn next_prop(&mut self) -> (r: Option<Property<'a>>);
}

impl<'a> DtbProperties<'a> for DtbPropertyIter<'a> {
    fn next_prop(&mut self) -> (r: Option<Property<'a>>) {
        self.next()
    }
}

/// The properties of the node and of every node below it.
#[derive(Clone, Copy)]
pub struct DtbRecursivePropertyIter<'a>(pub DtbStructParser<'a>, usize);

impl<'a> DtbRecursivePropertyIter<'a> {
    pub closed spec fn spec_parser(self) -> DtbStructParser<'a> {
        self.0
    }

    pub fn new(dtb_struct_parser: DtbStructParser<'a>) -> (r: DtbRecursivePropertyIter<'a>)
        ensures
            r.spec_parser() == dtb_struct_parser,
    {
        DtbRecursivePropertyIter(dtb_struct_parser, 0)
    }

    /// The next property at any depth; `None` at the enclosing node's
    /// end or the end of input.
    pub fn next(&mut self) -> (r: Option<Property<'a>>)
        ensures
            match r {
                Some(_) => final(self).spec_parser().spec_stream().data().len() < old(
                    self,
                ).spec_parser().spec_stream().data().len(),
                None => true,
            },
    {
        loop
            invariant
                self.spec_parser().spec_stream().data().len() <= old(
                    self,
                ).spec_parser().spec_stream().data().len(),
            decreases self.spec_parser().spec_stream().data().len(),
        {
            match self.0.next() {
                Some(DtbToken::BeginNode(_)) => {
                    if self.1 < usize::MAX {
                        self.1 = self.1 + 1;
                    }
                },
                Some(DtbToken::EndNode) => {
                    if self.1 == 0 {
                        return None;
                    }
                    self.1 = self.1 - 1;
                },
                Some(DtbToken::Prop(property)) => {
                    return Some(property);
                },
                Some(DtbToken::Nop) => {},
                None => {
                    return None;
                },
            }
        }
    }

    /// The value of the first property named `name`, searching the whole
    /// subtree.
    pub fn find_name(self, name: &[u8]) -> (r: Option<ByteStream<'a>>) {
        let mut it = self;
        loop
            decreases it.spec_parser().spec_stream().data().len(),
        {
            match it.next() {
                Some(prop) => {
                    if eq_bytes(prop.name, name) {
                        return Some(prop.data);
                    }
                },
                None => {
                    return None;
                },
            }
        }
    }
}

impl<'a> DtbProperties<'a> for DtbRecursivePropertyIter<'a> {
    fn next_prop(&mut self) -> (r: Option<Property<'a>>) {
        self.next()
    }
}

} // verus!
