//! A cursor over a byte buffer with big-endian integer reads.
//!
//! Every read either consumes a prefix of the remaining bytes and
//! returns its decoded value, or leaves the stream unchanged. The
//! absolute offset travels along so that aligned structures can be
//! re-aligned after variable-length fields.

use vstd::prelude::*;

verus! {

use vstd::slice::slice_subrange;

/// Big-endian value of a byte sequence.
pub open spec fn be_val(s: Seq<u8>) -> int
    decreases s.len(),
{
    if s.len() == 0 {
        0
    } else {
        be_val(s.drop_last()) * 256 + s.last()
    }
}

/// Index of the first zero byte, or -1 when there is none.
pub open spec fn find_nul(s: Seq<u8>) -> int
    decreases s.len(),
{
    if s.len() == 0 {
        -1
    } else if s[0] == 0 {
        0
    } else {
        let r = find_nul(s.subrange(1, s.len() as int));
        if r < 0 {
            -1
        } else {
            r + 1
        }
    }
}

pub proof fn lemma_find_nul(s: Seq<u8>)
    ensures
        find_nul(s) == -1 ==> forall|i: int| 0 <= i < s.len() ==> s[i] != 0,
        find_nul(s) >= 0 ==> find_nul(s) < s.len() && s[find_nul(s)] == 0 && forall|i: int|
            0 <= i < find_nul(s) ==> s[i] != 0,
    decreases s.len(),
{
    if s.len() > 0 && s[0] != 0 {
        let t = s.subrange(1, s.len() as int);
        lemma_find_nul(t);
        assert forall|i: int| 1 <= i < s.len() implies s[i] == t[i - 1] by {}
        if find_nul(t) < 0 {
            assert forall|i: int| 0 <= i < s.len() implies s[i] != 0 by {
                if i >= 1 {
                    assert(t[i - 1] != 0);
                }
            }
        } else {
            assert(find_nul(s) == find_nul(t) + 1);
            assert(s[find_nul(s)] == t[find_nul(t)]);
            assert forall|i: int| 0 <= i < find_nul(s) implies s[i] != 0 by {
                if i >= 1 {
                    assert(t[i - 1] != 0);
                }
            }
        }
    }
}

/// One of the buffer's nul-terminated tokens equals `t`.
pub open spec fn contains_tok(s: Seq<u8>, t: Seq<u8>) -> bool
    decreases s.len(),
{
    let n = find_nul(s);
    if n < 0 || n >= s.len() {
        false
    } else if s.subrange(0, n) == t {
        true
    } else {
        contains_tok(s.subrange(n + 1, s.len() as int), t)
    }
}

#[derive(Clone, Copy)]
pub struct ByteStream<'a>(&'a [u8], usize);

impl<'a> ByteStream<'a> {
    /// The bytes not yet consumed.
    pub closed spec fn data(self) -> Seq<u8> {
        self.0@
    }

    /// The absolute offset of the cursor from the start of the enclosing
    /// structure.
    pub closed spec fn off(self) -> int {
        self.1 as int
    }

    /// The cursor cannot run past the address limit: every read then
    /// fails only for want of input.
    pub open spec fn ok(self) -> bool {
        self.off() + self.data().len() <= usize::MAX
    }

    pub fn new(buf: &'a [u8], offset: usize) -> (r: ByteStream<'a>)
        ensures
            r.data() == buf@,
            r.off() == offset,
            offset + buf@.len() <= usize::MAX ==> r.ok(),
    {
        ByteStream(buf, offset)
    }

    /// Consume `length` bytes and return them; `None` (stream unchanged)
    /// when fewer are left.
    pub fn bytes(&mut self, length: usize) -> (r: Option<&'a [u8]>)
        ensures
            old(self).ok() ==> final(self).ok(),
            old(self).ok() ==> (r is None <==> length > old(self).data().len()),
            match r {
                Some(out) => {
                    &&& length <= old(self).data().len()
                    &&& old(self).off() + length <= usize::MAX
                    &&& out@ == old(self).data().subrange(0, length as int)
                    &&& final(self).data() == old(self).data().subrange(
                        length as int,
                        old(self).data().len() as int,
                    )
                    &&& final(self).off() == old(self).off() + length
                },
                None => {
                    &&& (length > old(self).data().len() || old(self).off() + length
                        > usize::MAX)
                    &&& *final(self) == *old(self)
                },
            },
    {
        if length > self.0.len() {
            return None;
        }
        if length > usize::MAX - self.1 {
            return None;
        }
        let out = slice_subrange(self.0, 0, length);
        self.0 = slice_subrange(self.0, length, self.0.len());
        self.1 = self.1 + length;
        Some(out)
    }

    /// Consume `N` bytes, returned as a slice of that exact length.
    pub fn chunk_ref<const N: usize>(&mut self) -> (r: Option<&'a [u8]>)
        ensures
            old(self).ok() ==> final(self).ok(),
            old(self).ok() ==> (r is None <==> N > old(self).data().len()),
            match r {
                Some(out) => {
                    &&& N <= old(self).data().len()
                    &&& old(self).off() + N <= usize::MAX
                    &&& out@.len() == N
                    &&& out@ == old(self).data().subrange(0, N as int)
                    &&& final(self).data() == old(self).data().subrange(
                        N as int,
                        old(self).data().len() as int,
                    )
                    &&& final(self).off() == old(self).off() + N
                },
                None => *final(self) == *old(self),
            },
    {
        self.bytes(N)
    }

    /// Consume `N` bytes, returned as an owned copy.
    pub fn chunk<const N: usize>(&mut self) -> (r: Option<Vec<u8>>)
        ensures
            old(self).ok() ==> final(self).ok(),
            old(self).ok() ==> (r is None <==> N > old(self).data().len()),
            match r {
                Some(out) => {
                    &&& N <= old(self).data().len()
                    &&& out@ == old(self).data().subrange(0, N as int)
                    &&& final(self).data() == old(self).data().subrange(
                        N as int,
                        old(self).data().len() as int,
                    )
                    &&& final(self).off() == old(self).off() + N
                },
                None => *final(self) == *old(self),
            },
    {
        match self.bytes(N) {
            Some(out) => Some(vstd::slice::slice_to_vec(out)),
            None => None,
        }
    }

    /// Big-endian byte read.
    pub fn u8(&mut self) -> (r: Option<u8>)
        ensures
            old(self).ok() ==> final(self).ok(),
            old(self).ok() ==> (r is None <==> 1 > old(self).data().len()),
            match r {
                Some(v) => {
                    &&& old(self).data().len() >= 1
                    &&& v == be_val(old(self).data().subrange(0, 1))
                    &&& final(self).data() == old(self).data().subrange(
                        1,
                        old(self).data().len() as int,
                    )
                    &&& final(self).off() == old(self).off() + 1
                },
                None => *final(self) == *old(self),
            },
    {
        match self.bytes(1) {
            Some(out) => {
                let v = *vstd::slice::slice_index_get(out, 0);
                proof {
                    let s = old(self).data().subrange(0, 1);
                    assert(s.drop_last() =~= Seq::<u8>::empty());
                    assert(be_val(Seq::<u8>::empty()) == 0);
                    assert(s.last() == v);
                    assert(be_val(s) == v);
                }
                Some(v)
            },
            None => None,
        }
    }

    /// Big-endian 32-bit read.
    pub fn u32(&mut self) -> (r: Option<u32>)
        ensures
            old(self).ok() ==> final(self).ok(),
            old(self).ok() ==> (r is None <==> 4 > old(self).data().len()),
            match r {
                Some(v) => {
                    &&& old(self).data().len() >= 4
                    &&& v == be_val(old(self).data().subrange(0, 4))
                    &&& final(self).data() == old(self).data().subrange(
                        4,
                        old(self).data().len() as int,
                    )
                    &&& final(self).off() == old(self).off() + 4
                },
                None => *final(self) == *old(self),
            },
    {
        match self.bytes(4) {
            Some(out) => Some(be_decode32(out)),
            None => None,
        }
    }

    /// Big-endian 64-bit read.
    pub fn u64(&mut self) -> (r: Option<u64>)
        ensures
            old(self).ok() ==> final(self).ok(),
            old(self).ok() ==> (r is None <==> 8 > old(self).data().len()),
            match r {
                Some(v) => {
                    &&& old(self).data().len() >= 8
                    &&& v == be_val(old(self).data().subrange(0, 8))
                    &&& final(self).data() == old(self).data().subrange(
                        8,
                        old(self).data().len() as int,
                    )
                    &&& final(self).off() == old(self).off() + 8
                },
                None => *final(self) == *old(self),
            },
    {
        match self.bytes(8) {
            Some(out) => Some(be_decode(out)),
            None => None,
        }
    }

    /// Big-endian read of `bytes` bytes into a 64-bit value; fails when
    /// the value would not fit, leaving the stream unchanged.
    pub fn u64_bytes(&mut self, bytes: u32) -> (r: Option<u64>)
        ensures
            old(self).ok() ==> final(self).ok(),
            old(self).ok() && bytes <= 8 ==> (r is None <==> bytes > old(self).data().len()),
            match r {
                Some(v) => {
                    &&& bytes <= old(self).data().len()
                    &&& bytes <= 8
                    &&& v == be_val(old(self).data().subrange(0, bytes as int))
                    &&& final(self).data() == old(self).data().subrange(
                        bytes as int,
                        old(self).data().len() as int,
                    )
                    &&& final(self).off() == old(self).off() + bytes
                },
                None => *final(self) == *old(self),
            },
    {
        if bytes > 8 {
            // the value could overflow the machine word
            return None;
        }
        let backup = *self;
        match self.bytes(bytes as usize) {
            Some(out) => {
                proof {
                    lemma_be_val_bound(out@);
                    vstd::arithmetic::power2::lemma2_to64();
                    vstd::arithmetic::power2::lemma2_to64_rest();
                    assert(vstd::arithmetic::power2::pow2((8 * out@.len()) as nat) <= vstd::arithmetic::power2::pow2(64)) by {
                        if out@.len() < 8 {
                            vstd::arithmetic::power2::lemma_pow2_strictly_increases(
                                (8 * out@.len()) as nat,
                                64,
                            );
                        }
                    }
                }
                Some(be_decode(out))
            },
            None => None,
        }
    }

    /// Big-endian read of a `cells`-cell value (4 bytes per cell).
    pub fn u64_cells(&mut self, cells: u32) -> (r: Option<u64>)
        ensures
            old(self).ok() ==> final(self).ok(),
            old(self).ok() && cells <= 2 ==> (r is None <==> 4 * cells > old(
                self,
            ).data().len()),
            match r {
                Some(v) => {
                    &&& 4 * cells <= old(self).data().len()
                    &&& v == be_val(old(self).data().subrange(0, 4 * cells as int))
                    &&& final(self).data() == old(self).data().subrange(
                        4 * cells as int,
                        old(self).data().len() as int,
                    )
                    &&& final(self).off() == old(self).off() + 4 * cells
                },
                None => *final(self) == *old(self),
            },
    {
        if cells > 2 {
            return None;
        }
        self.u64_bytes(4 * cells)
    }

    /// Skip to the next multiple of `align` of the absolute offset. When
    /// the padding runs past the end, the stream is left empty at the
    /// padded offset.
    pub fn align(&mut self, align: usize)
        requires
            align == 2 || align == 4 || align == 8,
        ensures
            old(self).ok() ==> final(self).ok(),
            final(self).data().len() <= old(self).data().len(),
            final(self).off() % (align as int) == 0 || final(self).data().len() == 0,
            final(self).off() >= old(self).off(),
            final(self).off() - old(self).off() < align,
            final(self).data().len() == 0 || final(self).data() == old(self).data().subrange(
                final(self).off() - old(self).off(),
                old(self).data().len() as int,
            ),
            old(self).ok() ==> ({
                let pad = (align as int - old(self).off() % (align as int)) % (align as int);
                if pad <= old(self).data().len() {
                    final(self).data() == old(self).data().subrange(
                        pad,
                        old(self).data().len() as int,
                    ) && final(self).off() == old(self).off() + pad
                } else {
                    final(self).data().len() == 0
                }
            }),
    {
        let ghost k: nat = if align == 2 {
            1
        } else if align == 4 {
            2
        } else {
            3
        };
        let rem = self.1 & (align - 1);
        proof {
            vstd::bits::lemma_usize_low_bits_mask_is_mod(self.1, k);
            vstd::arithmetic::power2::lemma2_to64();
            assert(vstd::bits::low_bits_mask(k) == align - 1);
            vstd::arithmetic::div_mod::lemma_mod_division_less_than_divisor(
                self.1 as int,
                align as int,
            );
            assert(rem == self.1 as int % (align as int));
            assert(rem < align);
        }
        let off0 = align - rem;
        let offset = off0 & (align - 1);
        proof {
            vstd::bits::lemma_usize_low_bits_mask_is_mod(off0, k);
            assert(offset == off0 as int % (align as int));
            vstd::arithmetic::div_mod::lemma_mod_division_less_than_divisor(
                off0 as int,
                align as int,
            );
            if rem == 0 {
                vstd::arithmetic::div_mod::lemma_mod_self_0(align as int);
                assert(offset == 0);
            } else {
                vstd::arithmetic::div_mod::lemma_small_mod((align - rem) as nat, align as nat);
                assert(offset == align - rem);
            }
        }
        let ghost pre = *self;
        match self.bytes(offset) {
            Some(_) => {
                proof {
                    if offset != 0 {
                        vstd::arithmetic::div_mod::lemma_mod_add_multiples_vanish(
                            (pre.off() + offset - align) as int,
                            align as int,
                        );
                        vstd::arithmetic::div_mod::lemma_fundamental_div_mod(
                            pre.off(),
                            align as int,
                        );
                        vstd::arithmetic::div_mod::lemma_mod_multiples_vanish(
                            pre.off() / (align as int) + 1,
                            0,
                            align as int,
                        );
                        vstd::arithmetic::div_mod::lemma_small_mod(0, align as nat);
                    }
                }
            },
            None => {
                if offset <= usize::MAX - self.1 {
                    self.1 = self.1 + offset;
                }
                self.0 = slice_subrange(self.0, self.0.len(), self.0.len());
            },
        }
    }

    /// Consume the nul-terminated token at the cursor, returning its
    /// bytes without the terminator; `None` (unchanged) when no nul
    /// remains.
    pub fn cstr(&mut self) -> (r: Option<&'a [u8]>)
        ensures
            old(self).ok() ==> final(self).ok(),
            old(self).ok() ==> (r is None <==> find_nul(old(self).data()) == -1),
            match r {
                Some(out) => {
                    &&& find_nul(old(self).data()) >= 0
                    &&& out@ == old(self).data().subrange(0, find_nul(old(self).data()))
                    &&& final(self).data() == old(self).data().subrange(
                        find_nul(old(self).data()) + 1,
                        old(self).data().len() as int,
                    )
                    &&& final(self).off() == old(self).off() + find_nul(old(self).data()) + 1
                },
                None => {
                    &&& (find_nul(old(self).data()) == -1 || old(self).off() + find_nul(
                        old(self).data(),
                    ) + 1 > usize::MAX)
                    &&& *final(self) == *old(self)
                },
            },
    {
        let mut i: usize = 0;
        let n = self.0.len();
        proof {
            lemma_find_nul(self.data());
        }
        while i < n
            invariant
                *self == *old(self),
                n == self.data().len(),
                0 <= i <= n,
                forall|j: int| 0 <= j < i ==> self.data()[j] != 0,
            decreases n - i,
        {
            if *vstd::slice::slice_index_get(self.0, i) == 0 {
                proof {
                    lemma_find_nul_at(self.data(), i as int);
                }
                let out = slice_subrange(self.0, 0, i);
                if i + 1 > usize::MAX - self.1 {
                    return None;
                }
                self.0 = slice_subrange(self.0, i + 1, self.0.len());
                self.1 = self.1 + i + 1;
                return Some(out);
            }
            i = i + 1;
        }
        proof {
            lemma_find_nul(self.data());
            if find_nul(self.data()) >= 0 {
                assert(self.data()[find_nul(self.data())] == 0);
            }
        }
        None
    }

    /// Whether any nul-terminated token of the remaining bytes equals
    /// `str`. The stream itself is taken by value and not changed.
    pub fn contains_str(self, str: &[u8]) -> (r: bool)
        ensures
            r == contains_tok(self.data(), str@),
    {
        // the token scan does not care where the cursor sits, so rebase
        // the offset to keep it clear of the address limit
        let total = self.0.len();
        let mut cur = ByteStream(self.0, 0);
        proof {
            assert(cur.data().len() == total);
        }
        loop
            invariant
                contains_tok(self.data(), str@) == contains_tok(cur.data(), str@),
                cur.off() + cur.data().len() <= usize::MAX,
            decreases cur.data().len(),
        {
            let ghost pre = cur;
            match cur.cstr() {
                Some(next) => {
                    proof {
                        lemma_find_nul(pre.data());
                        let n = find_nul(pre.data());
                        assert(cur.data() == pre.data().subrange(n + 1, pre.data().len() as int));
                        if next@ == str@ {
                            assert(contains_tok(pre.data(), str@));
                        } else {
                            assert(pre.data().subrange(0, n) != str@);
                            assert(contains_tok(pre.data(), str@) == contains_tok(
                                cur.data(),
                                str@,
                            ));
                        }
                    }
                    if eq_bytes(next, str) {
                        return true;
                    }
                },
                None => {
                    proof {
                        lemma_find_nul(cur.data());
                        assert(find_nul(cur.data()) == -1);
                        assert(!contains_tok(cur.data(), str@));
                    }
                    return false;
                },
            }
        }
    }

    /// The absolute offset of the cursor.
    pub fn offset(&self) -> (r: usize)
        ensures
            r == self.off(),
    {
        self.1
    }

    pub fn is_empty(&self) -> (r: bool)
        ensures
            r == (self.data().len() == 0),
    {
        self.0.len() == 0
    }

    pub fn len(&self) -> (r: usize)
        ensures
            r == self.data().len(),
    {
        self.0.len()
    }

    /// The remaining bytes themselves.
    pub fn buf(&self) -> (r: &'a [u8])
        ensures
            r@ == self.data(),
    {
        self.0
    }
}

/// Compare two byte slices for equality.
pub fn eq_bytes(a: &[u8], b: &[u8]) -> (r: bool)
    ensures
        r == (a@ == b@),
{
    if a.len() != b.len() {
        proof {
            assert(a@.len() != b@.len());
        }
        return false;
    }
    let n = a.len();
    let mut i: usize = 0;
    while i < n
        invariant
            n == a@.len() == b@.len(),
            0 <= i <= n,
            forall|j: int| 0 <= j < i ==> a@[j] == b@[j],
        decreases n - i,
    {
        if *vstd::slice::slice_index_get(a, i) != *vstd::slice::slice_index_get(b, i) {
            return false;
        }
        i = i + 1;
    }
    proof {
        assert(a@ =~= b@);
    }
    true
}

/// Decode a big-endian slice of at most 8 bytes into a 64-bit value.
fn be_decode(s: &[u8]) -> (r: u64)
    requires
        s@.len() <= 8,
    ensures
        r == be_val(s@),
{
    proof {
        lemma_be_val_bound(s@);
        vstd::arithmetic::power2::lemma2_to64();
        vstd::arithmetic::power2::lemma2_to64_rest();
        if s@.len() < 8 {
            vstd::arithmetic::power2::lemma_pow2_strictly_increases((8 * s@.len()) as nat, 64);
        }
    }
    let n = s.len();
    let mut v: u64 = 0;
    let mut i: usize = 0;
    while i < n
        invariant
            n == s@.len() <= 8,
            0 <= i <= n,
            v == be_val(s@.subrange(0, i as int)),
            v < vstd::arithmetic::power2::pow2((8 * i) as nat),
        decreases n - i,
    {
        proof {
            lemma_be_val_step(s@, i as int);
            vstd::arithmetic::power2::lemma2_to64();
            vstd::arithmetic::power2::lemma2_to64_rest();
            vstd::arithmetic::power2::lemma_pow2_adds((8 * i) as nat, 8);
            assert(v * 256 + s@[i as int] < vstd::arithmetic::power2::pow2((8 * (i + 1)) as nat))
                by (nonlinear_arith)
                requires
                    v < vstd::arithmetic::power2::pow2((8 * i) as nat),
                    s@[i as int] < 256,
                    vstd::arithmetic::power2::pow2((8 * (i + 1)) as nat) == vstd::arithmetic::power2::pow2(
                        (8 * i) as nat,
                    ) * 256,
            ;
            if i + 1 <= 8 {
                if 8 * (i + 1) < 64 {
                    vstd::arithmetic::power2::lemma_pow2_strictly_increases(
                        (8 * (i + 1)) as nat,
                        64,
                    );
                }
            }
        }
        v = v * 256 + (*vstd::slice::slice_index_get(s, i) as u64);
        i = i + 1;
    }
    proof {
        assert(s@.subrange(0, n as int) =~= s@);
    }
    v
}

/// Decode a big-endian 4-byte slice into a 32-bit value.
fn be_decode32(s: &[u8]) -> (r: u32)
    requires
        s@.len() == 4,
    ensures
        r == be_val(s@),
{
    let v = be_decode(s);
    proof {
        lemma_be_val_bound(s@);
        vstd::arithmetic::power2::lemma2_to64();
    }
    v as u32
}

/// A big-endian value fits in as many bits as it has bytes times eight.
pub proof fn lemma_be_val_bound(s: Seq<u8>)
    ensures
        0 <= be_val(s) < vstd::arithmetic::power2::pow2((8 * s.len()) as nat),
    decreases s.len(),
{
    vstd::arithmetic::power2::lemma2_to64();
    if s.len() == 0 {
    } else {
        lemma_be_val_bound(s.drop_last());
        vstd::arithmetic::power2::lemma_pow2_adds((8 * (s.len() - 1)) as nat, 8);
        assert(be_val(s.drop_last()) * 256 + s.last() < vstd::arithmetic::power2::pow2(
            (8 * s.len()) as nat,
        )) by (nonlinear_arith)
            requires
                be_val(s.drop_last()) < vstd::arithmetic::power2::pow2((8 * (s.len() - 1)) as nat),
                s.last() < 256,
                vstd::arithmetic::power2::pow2((8 * s.len()) as nat)
                    == vstd::arithmetic::power2::pow2((8 * (s.len() - 1)) as nat) * 256,
        ;
    }
}

/// Reading one more byte multiplies the prefix value by 256 and adds it.
proof fn lemma_be_val_step(s: Seq<u8>, i: int)
    requires
        0 <= i < s.len(),
    ensures
        be_val(s.subrange(0, i + 1)) == be_val(s.subrange(0, i)) * 256 + s[i],
{
    let p = s.subrange(0, i + 1);
    assert(p.drop_last() =~= s.subrange(0, i));
    assert(p.last() == s[i]);
}

/// The first zero at position `i` with none before it pins `find_nul`.
proof fn lemma_find_nul_at(s: Seq<u8>, i: int)
    requires
        0 <= i < s.len(),
        s[i] == 0,
        forall|j: int| 0 <= j < i ==> s[j] != 0,
    ensures
        find_nul(s) == i,
    decreases i,
{
    if i > 0 {
        let t = s.subrange(1, s.len() as int);
        lemma_find_nul_at(t, i - 1);
    }
}

} // verus!
