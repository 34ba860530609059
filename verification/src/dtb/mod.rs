//! Reading the flattened device tree the firmware hands the kernel: the
//! source of the physical memory regions freed into the allocator at
//! boot.
//!
//! A blob is validated once, up front, by `Dtb::from_slice`; the
//! iterators over its reservation entries, nodes and properties then
//! walk the validated blocks.

use vstd::prelude::*;

pub mod node;
pub mod parser;
pub mod property;
pub mod reserved;
pub mod stream;
pub mod strings;
pub mod structure;

verus! {

use crate::dtb::stream::{ByteStream, be_val, find_nul};
use crate::dtb::strings::DtbStrings;
use crate::dtb::structure::{DtbStructParser, DtbToken};
use crate::dtb::node::{DtbNodeIter, DtbRecursiveNodeIter};
use crate::dtb::property::DtbPropertyIter;
use crate::dtb::reserved::DtbReserveIter;

/// Why a blob was rejected.
#[derive(Clone, Copy, Debug, PartialEq, Eq, Structural)]
pub enum DtbError {
    /// The first word is not the format's magic number.
    InvalidMagic(u32),
    /// An unknown token code in the structure block.
    InvalidStructTok(u32),
    InvalidHeader,
    InvalidStrings,
    InvalidStruct,
    InvalidReserved,
    /// A required property was missing.
    ExpectedProperty,
}

/// The fixed fields at the front of a blob.
#[derive(Clone, Copy, Debug, PartialEq, Eq, Structural)]
pub struct DtbHeader {
    /// Magic number identifying the format.
    pub magic: u32,
    /// Total size of the blob in bytes.
    pub totalsize: u32,
    /// Byte offset of the structure block.
    pub off_dt_struct: u32,
    /// Byte offset of the strings block.
    pub off_dt_strings: u32,
    /// Byte offset of the memory reservation block.
    pub off_mem_rsvmap: u32,
    /// Format version number.
    pub version: u32,
    /// Last version this blob is compatible with.
    pub last_comp_version: u32,
    /// Physical id of the boot processor.
    pub boot_cpuid_phys: u32,
    /// Size of the strings block in bytes.
    pub size_dt_strings: u32,
    /// Size of the structure block in bytes.
    pub size_dt_struct: u32,
}

impl DtbHeader {
    pub const MAGIC: u32 = 0xd00d_feed;
}

/// One entry of the memory reservation block.
#[derive(Clone, Copy, Debug, PartialEq, Eq, Structural)]
pub struct Reserved {
    pub address: u64,
    pub size: u64,
}

/// A property: its name from the strings block and its raw value.
#[derive(Clone, Copy)]
pub struct Property<'a> {
    pub name: &'a [u8],
    pub data: ByteStream<'a>,
}

impl<'a> Property<'a> {
    pub fn new(name: &'a [u8], data: ByteStream<'a>) -> (r: Property<'a>)
        ensures
            r.name == name,
            r.data == data,
    {
        Property { name, data }
    }
}

/// Field `i` of the header: the `i`-th big-endian word of the blob.
pub open spec fn hdr_field(s: Seq<u8>, i: int) -> int {
    be_val(s.subrange(4 * i, 4 * i + 4))
}

/// Padding that re-aligns absolute offset `off` to the next word.
pub open spec fn pad4(off: int) -> int {
    (4 - off % 4) % 4
}

/// The strings block holds a nul-terminated name at `off`.
pub open spec fn strings_has(strs: Seq<u8>, off: int) -> bool {
    0 <= off <= strs.len() && find_nul(strs.subrange(off, strs.len() as int)) >= 0
}

/// The structure block's validation walk succeeds from this state: the
/// remaining bytes `s` at absolute offset `off`, `level` nodes open,
/// `past` once the first node token was seen. Token codes must be known,
/// nesting balanced and closed by a final end token at level zero,
/// every property name resolvable in the strings block, and every
/// variable-length field wholly inside the block.
pub open spec fn struct_ok(s: Seq<u8>, off: int, level: int, past: bool, strs: Seq<u8>) -> bool
    decreases s.len(),
{
    if s.len() < 4 {
        false
    } else {
        let code = be_val(s.subrange(0, 4));
        let r1 = s.subrange(4, s.len() as int);
        let o1 = off + 4;
        if code == 1 {
            let n = find_nul(r1);
            if n < 0 || n + 1 > r1.len() || level >= u64::MAX {
                false
            } else {
                let r2 = r1.subrange(n + 1, r1.len() as int);
                let o2 = o1 + n + 1;
                if pad4(o2) > r2.len() {
                    false
                } else {
                    struct_ok(
                        r2.subrange(pad4(o2), r2.len() as int),
                        o2 + pad4(o2),
                        level + 1,
                        true,
                        strs,
                    )
                }
            }
        } else if code == 3 {
            if !past || r1.len() < 4 {
                false
            } else {
                let length = be_val(r1.subrange(0, 4));
                let r2 = r1.subrange(4, r1.len() as int);
                if r2.len() < 4 {
                    false
                } else {
                    let nameoff = be_val(r2.subrange(0, 4));
                    let r3 = r2.subrange(4, r2.len() as int);
                    if length < 0 || length > r3.len() {
                        false
                    } else {
                        let r4 = r3.subrange(length, r3.len() as int);
                        let o2 = o1 + 8 + length;
                        if pad4(o2) > r4.len() || !strings_has(strs, nameoff) {
                            false
                        } else {
                            struct_ok(
                                r4.subrange(pad4(o2), r4.len() as int),
                                o2 + pad4(o2),
                                level,
                                past,
                                strs,
                            )
                        }
                    }
                }
            }
        } else if code == 2 {
            if level == 0 {
                false
            } else {
                struct_ok(r1, o1, level - 1, true, strs)
            }
        } else if code == 4 {
            struct_ok(r1, o1, level, past, strs)
        } else if code == 9 {
            level == 0
        } else {
            false
        }
    }
}

/// The reservation block's validation walk succeeds: whole entries up
/// to and including one whose address and size are both zero.
pub open spec fn resv_ok(s: Seq<u8>) -> bool
    decreases s.len(),
{
    if s.len() < 16 {
        false
    } else if be_val(s.subrange(0, 8)) == 0 && be_val(s.subrange(8, 16)) == 0 {
        true
    } else {
        resv_ok(s.subrange(16, s.len() as int))
    }
}

/// A validated device tree blob.
pub struct Dtb<'a> {
    header: DtbHeader,
    reserved: ByteStream<'a>,
    structure: ByteStream<'a>,
    strings: DtbStrings<'a>,
}

impl<'a> Dtb<'a> {
    pub closed spec fn spec_header(self) -> DtbHeader {
        self.header
    }

    pub closed spec fn spec_reserved(self) -> ByteStream<'a> {
        self.reserved
    }

    pub closed spec fn spec_structure(self) -> ByteStream<'a> {
        self.structure
    }

    pub closed spec fn spec_strings(self) -> DtbStrings<'a> {
        self.strings
    }

    /// Parse and validate a blob: decode the header, slice out the three
    /// blocks, then walk the whole structure block once (checking token
    /// codes, nesting and property name offsets) and the reservation
    /// block until its terminating empty entry. A blob is accepted if
    /// and only if the magic matches, the declared total size covers the
    /// slice, the blocks lie inside it, the structure block starts
    /// word-aligned, its validation walk succeeds and the reservation
    /// block is terminated.
    pub fn from_slice(slice: &'a [u8]) -> (r: Result<Dtb<'a>, DtbError>)
        ensures
            ({
                let s = slice@;
                &&& s.len() >= 40
                &&& hdr_field(s, 0) == DtbHeader::MAGIC
                &&& hdr_field(s, 1) >= s.len()
                &&& hdr_field(s, 3) + hdr_field(s, 8) <= s.len()
                &&& hdr_field(s, 2) + hdr_field(s, 9) <= s.len()
                &&& hdr_field(s, 4) <= s.len()
                &&& hdr_field(s, 2) % 4 == 0
                &&& struct_ok(
                    s.subrange(hdr_field(s, 2), hdr_field(s, 2) + hdr_field(s, 9)),
                    hdr_field(s, 2),
                    0,
                    false,
                    s.subrange(hdr_field(s, 3), hdr_field(s, 3) + hdr_field(s, 8)),
                )
                &&& resv_ok(s.subrange(hdr_field(s, 4), s.len() as int))
            }) ==> r is Ok,
            match r {
                Ok(d) => {
                    let s = slice@;
                    &&& s.len() >= 40
                    &&& struct_ok(
                        d.spec_structure().data(),
                        d.spec_structure().off(),
                        0,
                        false,
                        d.spec_strings().data(),
                    )
                    &&& resv_ok(d.spec_reserved().data())
                    &&& d.spec_header().magic == DtbHeader::MAGIC
                    &&& d.spec_header().magic == hdr_field(s, 0)
                    &&& d.spec_header().totalsize == hdr_field(s, 1)
                    &&& d.spec_header().off_dt_struct == hdr_field(s, 2)
                    &&& d.spec_header().off_dt_strings == hdr_field(s, 3)
                    &&& d.spec_header().off_mem_rsvmap == hdr_field(s, 4)
                    &&& d.spec_header().version == hdr_field(s, 5)
                    &&& d.spec_header().last_comp_version == hdr_field(s, 6)
                    &&& d.spec_header().boot_cpuid_phys == hdr_field(s, 7)
                    &&& d.spec_header().size_dt_strings == hdr_field(s, 8)
                    &&& d.spec_header().size_dt_struct == hdr_field(s, 9)
                    &&& d.spec_strings().data() == s.subrange(
                        hdr_field(s, 3),
                        hdr_field(s, 3) + hdr_field(s, 8),
                    )
                    &&& d.spec_structure().data() == s.subrange(
                        hdr_field(s, 2),
                        hdr_field(s, 2) + hdr_field(s, 9),
                    )
                    &&& d.spec_structure().off() == hdr_field(s, 2)
                    &&& d.spec_reserved().data() == s.subrange(hdr_field(s, 4), s.len() as int)
                    &&& d.spec_reserved().off() == hdr_field(s, 4)
                },
                Err(DtbError::InvalidMagic(m)) => slice@.len() >= 4 && m == be_val(
                    slice@.subrange(0, 4),
                ) && m != DtbHeader::MAGIC,
                Err(e) => e != DtbError::ExpectedProperty,
            },
    {
        let slen = slice.len();
        let mut stream = ByteStream::new(slice, 0);
        proof {
            assert(stream.ok());
        }
        let magic = match stream.u32() {
            Some(v) => v,
            None => {
                return Err(DtbError::InvalidHeader);
            },
        };
        if magic != 0xd00d_feed {
            return Err(DtbError::InvalidMagic(magic));
        }
        let totalsize = match stream.u32() {
            Some(v) => v,
            None => {
                return Err(DtbError::InvalidHeader);
            },
        };
        if (totalsize as usize) < slice.len() {
            proof {
                let s = slice@;
                assert(s.subrange(4, s.len() as int).subrange(0, 4) =~= s.subrange(4, 8));
            }
            return Err(DtbError::InvalidHeader);
        }
        let off_dt_struct = match stream.u32() {
            Some(v) => v,
            None => {
                return Err(DtbError::InvalidHeader);
            },
        };
        let off_dt_strings = match stream.u32() {
            Some(v) => v,
            None => {
                return Err(DtbError::InvalidHeader);
            },
        };
        let off_mem_rsvmap = match stream.u32() {
            Some(v) => v,
            None => {
                return Err(DtbError::InvalidHeader);
            },
        };
        let version = match stream.u32() {
            Some(v) => v,
            None => {
                return Err(DtbError::InvalidHeader);
            },
        };
        let last_comp_version = match stream.u32() {
            Some(v) => v,
            None => {
                return Err(DtbError::InvalidHeader);
            },
        };
        let boot_cpuid_phys = match stream.u32() {
            Some(v) => v,
            None => {
                return Err(DtbError::InvalidHeader);
            },
        };
        let size_dt_strings = match stream.u32() {
            Some(v) => v,
            None => {
                return Err(DtbError::InvalidHeader);
            },
        };
        let size_dt_struct = match stream.u32() {
            Some(v) => v,
            None => {
                return Err(DtbError::InvalidHeader);
            },
        };
        let header = DtbHeader {
            magic,
            totalsize,
            off_dt_struct,
            off_dt_strings,
            off_mem_rsvmap,
            version,
            last_comp_version,
            boot_cpuid_phys,
            size_dt_strings,
            size_dt_struct,
        };
        proof {
            let s = slice@;
            let l = s.len() as int;
            assert(s.subrange(0, l).subrange(0, 4) =~= s.subrange(0, 4));
            assert(s.subrange(4, l).subrange(0, 4) =~= s.subrange(4, 8));
            assert(s.subrange(4, l).subrange(4, l - 4) =~= s.subrange(8, l));
            assert(s.subrange(8, l).subrange(0, 4) =~= s.subrange(8, 12));
            assert(s.subrange(8, l).subrange(4, l - 8) =~= s.subrange(12, l));
            assert(s.subrange(12, l).subrange(0, 4) =~= s.subrange(12, 16));
            assert(s.subrange(12, l).subrange(4, l - 12) =~= s.subrange(16, l));
            assert(s.subrange(16, l).subrange(0, 4) =~= s.subrange(16, 20));
            assert(s.subrange(16, l).subrange(4, l - 16) =~= s.subrange(20, l));
            assert(s.subrange(20, l).subrange(0, 4) =~= s.subrange(20, 24));
            assert(s.subrange(20, l).subrange(4, l - 20) =~= s.subrange(24, l));
            assert(s.subrange(24, l).subrange(0, 4) =~= s.subrange(24, 28));
            assert(s.subrange(24, l).subrange(4, l - 24) =~= s.subrange(28, l));
            assert(s.subrange(28, l).subrange(0, 4) =~= s.subrange(28, 32));
            assert(s.subrange(28, l).subrange(4, l - 28) =~= s.subrange(32, l));
            assert(s.subrange(32, l).subrange(0, 4) =~= s.subrange(32, 36));
            assert(s.subrange(32, l).subrange(4, l - 32) =~= s.subrange(36, l));
            assert(s.subrange(36, l).subrange(0, 4) =~= s.subrange(36, 40));
        }
        // the strings block
        if (off_dt_strings as u64) + (size_dt_strings as u64) > slen as u64 {
            return Err(DtbError::InvalidHeader);
        }
        let strings_slice = vstd::slice::slice_subrange(
            slice,
            off_dt_strings as usize,
            off_dt_strings as usize + size_dt_strings as usize,
        );
        let strings = DtbStrings::new(strings_slice);
        // the structure block
        if (off_dt_struct as u64) + (size_dt_struct as u64) > slen as u64 {
            return Err(DtbError::InvalidHeader);
        }
        let structure_slice = vstd::slice::slice_subrange(
            slice,
            off_dt_struct as usize,
            off_dt_struct as usize + size_dt_struct as usize,
        );
        let structure = ByteStream::new(structure_slice, off_dt_struct as usize);
        // the reservation block
        if (off_mem_rsvmap as usize) > slen {
            return Err(DtbError::InvalidHeader);
        }
        let reserved_slice = vstd::slice::slice_subrange(slice, off_mem_rsvmap as usize, slen);
        let reserved = ByteStream::new(reserved_slice, off_mem_rsvmap as usize);
        // the structure block must start word-aligned
        if off_dt_struct % 4 != 0 {
            return Err(DtbError::InvalidHeader);
        }
        // walk the whole structure block: token codes and nesting must
        // be sound and every property name resolvable
        let ghost s0 = structure.data();
        let ghost o0 = structure.off();
        let ghost strs0 = strings.data();
        let mut walk = structure;
        let mut level: u64 = 0;
        let mut past_properties = false;
        proof {
            assert(walk.ok());
        }
        loop
            invariant_except_break
                walk.ok(),
                strings.data() == strs0,
                s0 == slice@.subrange(
                    hdr_field(slice@, 2),
                    hdr_field(slice@, 2) + hdr_field(slice@, 9),
                ),
                o0 == hdr_field(slice@, 2),
                strs0 == slice@.subrange(
                    hdr_field(slice@, 3),
                    hdr_field(slice@, 3) + hdr_field(slice@, 8),
                ),
                struct_ok(s0, o0, 0, false, strs0) == struct_ok(
                    walk.data(),
                    walk.off(),
                    level as int,
                    past_properties,
                    strs0,
                ),
            ensures
                struct_ok(s0, o0, 0, false, strs0),
            decreases walk.data().len(),
        {
            let ghost pre = walk;
            let ghost glevel = level as int;
            let ghost gpast = past_properties;
            let code = match walk.u32() {
                Some(c) => c,
                None => {
                    proof {
                        assert(!struct_ok(pre.data(), pre.off(), glevel, gpast, strs0));
                    }
                    return Err(DtbError::InvalidStruct);
                },
            };
            let ghost r1 = pre.data().subrange(4, pre.data().len() as int);
            let ghost o1 = pre.off() + 4;
            if code == 1 {
                match walk.cstr() {
                    Some(_) => {},
                    None => {
                        proof {
                            assert(find_nul(r1) == -1);
                            assert(!struct_ok(pre.data(), pre.off(), glevel, gpast, strs0));
                        }
                        return Err(DtbError::InvalidStruct);
                    },
                }
                let ghost n = find_nul(r1);
                let ghost r2 = r1.subrange(n + 1, r1.len() as int);
                let ghost o2 = o1 + n + 1;
                proof {
                    crate::dtb::stream::lemma_find_nul(r1);
                    assert(walk.data() == r2 && walk.off() == o2);
                }
                walk.align(4);
                if level == u64::MAX {
                    proof {
                        assert(!struct_ok(pre.data(), pre.off(), glevel, gpast, strs0));
                    }
                    return Err(DtbError::InvalidStruct);
                }
                level = level + 1;
                past_properties = true;
                proof {
                    if pad4(o2) <= r2.len() {
                        assert(walk.data() == r2.subrange(pad4(o2), r2.len() as int));
                        assert(walk.off() == o2 + pad4(o2));
                        assert(struct_ok(pre.data(), pre.off(), glevel, gpast, strs0)
                            == struct_ok(walk.data(), walk.off(), level as int, true, strs0));
                    } else {
                        assert(walk.data().len() == 0);
                        assert(!struct_ok(pre.data(), pre.off(), glevel, gpast, strs0));
                        assert(!struct_ok(walk.data(), walk.off(), level as int, true, strs0));
                    }
                    assert(walk.data().len() < pre.data().len());
                }
            } else if code == 3 {
                if !past_properties {
                    proof {
                        assert(!struct_ok(pre.data(), pre.off(), glevel, gpast, strs0));
                    }
                    return Err(DtbError::InvalidStruct);
                }
                let length = match walk.u32() {
                    Some(v) => v,
                    None => {
                        proof {
                            assert(r1.len() < 4);
                            assert(!struct_ok(pre.data(), pre.off(), glevel, gpast, strs0));
                        }
                        return Err(DtbError::InvalidStruct);
                    },
                };
                let ghost r2 = r1.subrange(4, r1.len() as int);
                let nameoff = match walk.u32() {
                    Some(v) => v,
                    None => {
                        proof {
                            assert(r2.len() < 4);
                            assert(!struct_ok(pre.data(), pre.off(), glevel, gpast, strs0));
                        }
                        return Err(DtbError::InvalidStruct);
                    },
                };
                let ghost r3 = r2.subrange(4, r2.len() as int);
                match walk.bytes(length as usize) {
                    Some(_) => {},
                    None => {
                        proof {
                            assert(length > r3.len());
                            assert(!struct_ok(pre.data(), pre.off(), glevel, gpast, strs0));
                        }
                        return Err(DtbError::InvalidStruct);
                    },
                }
                let ghost r4 = r3.subrange(length as int, r3.len() as int);
                let ghost o2 = o1 + 8 + length;
                proof {
                    assert(walk.data() == r4 && walk.off() == o2);
                }
                walk.align(4);
                match strings.get(nameoff as usize) {
                    Some(_) => {},
                    None => {
                        proof {
                            assert(!strings_has(strs0, nameoff as int));
                            assert(!struct_ok(pre.data(), pre.off(), glevel, gpast, strs0));
                        }
                        return Err(DtbError::InvalidStrings);
                    },
                }
                proof {
                    assert(strings_has(strs0, nameoff as int));
                    if pad4(o2) <= r4.len() {
                        assert(walk.data() == r4.subrange(pad4(o2), r4.len() as int));
                        assert(walk.off() == o2 + pad4(o2));
                        assert(struct_ok(pre.data(), pre.off(), glevel, gpast, strs0)
                            == struct_ok(walk.data(), walk.off(), level as int, past_properties, strs0));
                    } else {
                        assert(walk.data().len() == 0);
                        assert(!struct_ok(pre.data(), pre.off(), glevel, gpast, strs0));
                        assert(!struct_ok(walk.data(), walk.off(), level as int, past_properties, strs0));
                    }
                    assert(walk.data().len() < pre.data().len());
                }
            } else if code == 2 {
                if level == 0 {
                    proof {
                        assert(!struct_ok(pre.data(), pre.off(), glevel, gpast, strs0));
                    }
                    return Err(DtbError::InvalidStruct);
                }
                level = level - 1;
                past_properties = true;
                proof {
                    assert(struct_ok(pre.data(), pre.off(), glevel, gpast, strs0) == struct_ok(
                        walk.data(),
                        walk.off(),
                        level as int,
                        true,
                        strs0,
                    ));
                }
            } else if code == 4 {
                // nop
                proof {
                    assert(struct_ok(pre.data(), pre.off(), glevel, gpast, strs0) == struct_ok(
                        walk.data(),
                        walk.off(),
                        level as int,
                        past_properties,
                        strs0,
                    ));
                }
            } else if code == 9 {
                if level == 0 {
                    proof {
                        assert(struct_ok(pre.data(), pre.off(), glevel, gpast, strs0));
                    }
                    break ;
                }
                proof {
                    assert(!struct_ok(pre.data(), pre.off(), glevel, gpast, strs0));
                }
                return Err(DtbError::InvalidStruct);
            } else {
                proof {
                    assert(!struct_ok(pre.data(), pre.off(), glevel, gpast, strs0));
                }
                return Err(DtbError::InvalidStructTok(code));
            }
        }
        // the reservation block must end with an empty entry
        let ghost rv0 = reserved.data();
        let mut rwalk = reserved;
        proof {
            assert(rwalk.ok());
        }
        loop
            invariant_except_break
                rwalk.ok(),
                rv0 == slice@.subrange(hdr_field(slice@, 4), slice@.len() as int),
                resv_ok(rv0) == resv_ok(rwalk.data()),
            ensures
                resv_ok(rv0),
            decreases rwalk.data().len(),
        {
            let ghost pre = rwalk;
            let address = match rwalk.u64() {
                Some(v) => v,
                None => {
                    proof {
                        assert(!resv_ok(pre.data()));
                    }
                    return Err(DtbError::InvalidReserved);
                },
            };
            let size = match rwalk.u64() {
                Some(v) => v,
                None => {
                    proof {
                        assert(pre.data().len() < 16);
                        assert(!resv_ok(pre.data()));
                    }
                    return Err(DtbError::InvalidReserved);
                },
            };
            proof {
                let d = pre.data();
                assert(d.subrange(8, d.len() as int).subrange(0, 8) =~= d.subrange(8, 16));
                assert(d.subrange(8, d.len() as int).subrange(
                    8,
                    d.len() - 8,
                ) =~= d.subrange(16, d.len() as int));
                assert(rwalk.data() == d.subrange(16, d.len() as int));
            }
            if address == 0 && size == 0 {
                proof {
                    assert(resv_ok(pre.data()));
                }
                break ;
            }
            proof {
                assert(resv_ok(pre.data()) == resv_ok(rwalk.data()));
            }
        }
        Ok(Dtb { header, reserved, structure, strings })
    }

    /// Iterate the memory reservation block.
    pub fn reserved(&self) -> (r: DtbReserveIter<'a>)
        ensures
            r.spec_stream() == self.spec_reserved(),
    {
        DtbReserveIter::new(self.reserved)
    }

    pub fn strings(&self) -> (r: DtbStrings<'a>)
        ensures
            r == self.spec_strings(),
    {
        self.strings
    }

    /// A token walk over the whole structure block.
    pub fn structure(&self) -> (r: DtbStructParser<'a>)
        ensures
            r.spec_stream() == self.spec_structure(),
            r.spec_strings() == self.spec_strings(),
    {
        DtbStructParser::new(self.structure, self.strings)
    }

    /// The root node, its name skipped past.
    pub fn root(&self) -> (r: DtbNode<'a>)
        ensures
            r.spec_body().spec_strings() == self.spec_strings(),
    {
        let mut stream = self.structure;
        let _ = stream.u32();
        let name = match stream.cstr() {
            Some(n) => n,
            None => {
                let e: &'a [u8] = &[];
                e
            },
        };
        stream.align(4);
        DtbNode::new(name, DtbStructParser::new(stream, self.strings))
    }

    /// All nodes of the tree, in document order.
    pub fn nodes(&self) -> (r: DtbRecursiveNodeIter<'a>)
        ensures
            r.spec_parser().spec_strings() == self.spec_strings(),
    {
        DtbRecursiveNodeIter::new(self.structure())
    }

    pub fn header(&self) -> (r: &DtbHeader)
        ensures
            *r == self.spec_header(),
    {
        &self.header
    }
}

/// Helper naming the bytes of header field `i`.
pub open spec fn stream_field(s: Seq<u8>, i: int) -> Seq<u8> {
    s.subrange(4 * i, 4 * i + 4)
}

/// One node: its name and a walk positioned just inside it.
#[derive(Clone, Copy)]
pub struct DtbNode<'a> {
    name: &'a [u8],
    body: DtbStructParser<'a>,
}

impl<'a> DtbNode<'a> {
    pub closed spec fn spec_name(self) -> Seq<u8> {
        self.name@
    }

    pub closed spec fn spec_body(self) -> DtbStructParser<'a> {
        self.body
    }

    pub fn new(name: &'a [u8], body: DtbStructParser<'a>) -> (r: DtbNode<'a>)
        ensures
            r.spec_name() == name@,
            r.spec_body() == body,
    {
        DtbNode { name, body }
    }

    pub fn name(&self) -> (r: &'a [u8])
        ensures
            r@ == self.spec_name(),
    {
        self.name
    }

    /// The node's immediate children.
    pub fn childern(&self) -> (r: DtbNodeIter<'a>)
        ensures
            r.spec_parser() == self.spec_body(),
    {
        DtbNodeIter::new(self.body)
    }

    /// The node's children, grandchildren and so on, in document order.
    pub fn childern_recursive(&self) -> (r: DtbRecursiveNodeIter<'a>)
        ensures
            r.spec_parser() == self.spec_body(),
    {
        DtbRecursiveNodeIter::new(self.body)
    }

    /// The node's own properties.
    pub fn properties(&self) -> (r: DtbPropertyIter<'a>)
        ensures
            r.spec_parser() == self.spec_body(),
    {
        DtbPropertyIter::new(self.body)
    }
}

} // verus!
