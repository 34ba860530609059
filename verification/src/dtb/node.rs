//! Node iterators over the structure block.

use vstd::prelude::*;

verus! {

use crate::dtb::structure::{DtbStructParser, DtbToken};
use crate::dtb::DtbNode;

/// The immediate children of the node the parser is positioned in.
#[derive(Clone, Copy)]
pub struct DtbNodeIter<'a>(pub DtbStructParser<'a>, usize);

impl<'a> DtbNodeIter<'a> {
    pub closed spec fn spec_parser(self) -> DtbStructParser<'a> {
        self.0
    }

    pub fn new(dtb_struct_parser: DtbStructParser<'a>) -> (r: DtbNodeIter<'a>)
        ensures
            r.spec_parser() == dtb_struct_parser,
    {
        DtbNodeIter(dtb_struct_parser, 0)
    }

    /// The next child at the iterator's own depth; nested nodes are
    /// skipped. The walk ends at the enclosing node's end.
    pub fn next(&mut self) -> (r: Option<DtbNode<'a>>)
        ensures
            match r {
                Some(n) => {
                    &&& n.spec_body().spec_strings() == old(self).spec_parser().spec_strings()
                    &&& final(self).spec_parser().spec_strings() == old(
                        self,
                    ).spec_parser().spec_strings()
                    &&& final(self).spec_parser().spec_stream().data().len() < old(
                        self,
                    ).spec_parser().spec_stream().data().len()
                },
                None => final(self).spec_parser().spec_strings() == old(
                    self,
                ).spec_parser().spec_strings(),
            },
    {
        loop
            invariant
                self.spec_parser().spec_strings() == old(self).spec_parser().spec_strings(),
                self.spec_parser().spec_stream().data().len() <= old(
                    self,
                ).spec_parser().spec_stream().data().len(),
            decreases self.spec_parser().spec_stream().data().len(),
        {
            match self.0.next() {
                Some(DtbToken::BeginNode(name)) => {
                    if self.1 == 0 {
                        self.1 = 1;
                        return Some(DtbNode::new(name, self.0));
                    }
                    if self.1 < usize::MAX {
                        self.1 = self.1 + 1;
                    }
                },
                Some(DtbToken::EndNode) => {
                    if self.1 == 0 {
                        return None;
                    }
                    self.1 = self.1 - 1;
                },
                Some(DtbToken::Prop(_)) => {},
                Some(DtbToken::Nop) => {},
                None => {
                    return None;
                },
            }
        }
    }
}

/// All nodes below the parser's position, in document order.
#[derive(Clone, Copy)]
pub struct DtbRecursiveNodeIter<'a>(pub DtbStructParser<'a>, usize);

impl<'a> DtbRecursiveNodeIter<'a> {
    pub closed spec fn spec_parser(self) -> DtbStructParser<'a> {
        self.0
    }

    pub fn new(dtb_struct_parser: DtbStructParser<'a>) -> (r: DtbRecursiveNodeIter<'a>)
        ensures
            r.spec_parser() == dtb_struct_parser,
    {
        DtbRecursiveNodeIter(dtb_struct_parser, 0)
    }

    /// The next node at any depth. The walk ends at the end of the
    /// enclosing node.
    pub fn next(&mut self) -> (r: Option<DtbNode<'a>>)
        ensures
            match r {
                Some(n) => {
                    &&& n.spec_body().spec_strings() == old(self).spec_parser().spec_strings()
                    &&& final(self).spec_parser().spec_strings() == old(
                        self,
                    ).spec_parser().spec_strings()
                    &&& final(self).spec_parser().spec_stream().data().len() < old(
                        self,
                    ).spec_parser().spec_stream().data().len()
                },
                None => final(self).spec_parser().spec_strings() == old(
                    self,
                ).spec_parser().spec_strings(),
            },
    {
        loop
            invariant
                self.spec_parser().spec_strings() == old(self).spec_parser().spec_strings(),
                self.spec_parser().spec_stream().data().len() <= old(
                    self,
                ).spec_parser().spec_stream().data().len(),
            decreases self.spec_parser().spec_stream().data().len(),
        {
            match self.0.next() {
                Some(DtbToken::BeginNode(name)) => {
                    if self.1 < usize::MAX {
                        self.1 = self.1 + 1;
                    }
                    return Some(DtbNode::new(name, self.0));
                },
                Some(DtbToken::EndNode) => {
                    if self.1 == 0 {
                        return None;
                    }
                    self.1 = self.1 - 1;
                },
                Some(DtbToken::Prop(_)) => {},
                Some(DtbToken::Nop) => {},
                None => {
                    return None;
                },
            }
        }
    }
}

} // verus!
