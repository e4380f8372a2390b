//! A bump allocator to help set up kernel structures.
//!
//! Structures such as the page allocator's trees are set up in place, in
//! memory that is at first unmapped. The set-up runs over a buffer in two
//! passes:
//! - mock pass: bumps the pointer without touching memory, to find out how
//!   much space the structures take, so that this space can be mapped in;
//! - actual pass: bumps the pointer in the same way and hands out the
//!   addresses at which the structures are then created.
//!
//! The allocator deals in addresses; it does not touch memory itself.

use vstd::layout::{align_nonzero, align_of, size_of};
use vstd::prelude::*;

verus! {

/// `addr` rounded up to the next multiple of `align`.
pub open spec fn align_up(addr: int, align: int) -> int {
    ((addr + align - 1) / align) * align
}

/// Where the pointer stands after a slice of `len` elements of `size`
/// bytes, aligned to `align`, was allocated at `ptr`.
pub open spec fn bumped(ptr: int, size: int, align: int, len: int) -> int {
    align_up(ptr, align) + len * size
}

/// Whether a slice of `len` elements of `size` bytes, aligned to `align`,
/// can be allocated at `ptr` in a buffer whose last byte is at `last_addr`:
/// its start lies within the buffer and its end does not lie past the
/// buffer's last byte.
pub open spec fn fits_at(ptr: int, last_addr: int, size: int, align: int, len: int) -> bool {
    &&& align_up(ptr, align) <= last_addr
    &&& bumped(ptr, size, align, len) <= last_addr
}

/// Whether the pointer can be moved as by an allocation of a slice of
/// `len` elements of `size` bytes, aligned to `align`, at `ptr`: the start
/// of the slice lies within the buffer, and its end within the address
/// space. The end may lie past the end of the buffer.
pub open spec fn mock_fits_at(ptr: int, last_addr: int, size: int, align: int, len: int) -> bool {
    &&& align_up(ptr, align) <= last_addr
    &&& bumped(ptr, size, align, len) <= usize::MAX
}

/// A bump allocator over the addresses of a buffer.
#[derive(Clone, Copy, Debug)]
pub struct BumpAlloc {
    ptr: usize,
    last_addr: usize,
}

impl BumpAlloc {
    /// The address at which the next allocation starts, before alignment.
    pub closed spec fn ptr(&self) -> int {
        self.ptr as int
    }

    /// The address of the last byte of the buffer.
    pub closed spec fn last_addr(&self) -> int {
        self.last_addr as int
    }

    /// Whether a slice of `len` elements of `size` bytes, aligned to
    /// `align`, can be allocated.
    pub open spec fn fits(&self, size: int, align: int, len: int) -> bool {
        fits_at(self.ptr(), self.last_addr(), size, align, len)
    }

    /// Whether the pointer can be moved as by an allocation of a slice of
    /// `len` elements of `size` bytes, aligned to `align`.
    pub open spec fn mock_fits(&self, size: int, align: int, len: int) -> bool {
        mock_fits_at(self.ptr(), self.last_addr(), size, align, len)
    }

    /// The pointer and the end of the buffer are addresses.
    pub proof fn lemma_addresses(&self)
        ensures
            0 <= self.ptr() <= usize::MAX,
            0 <= self.last_addr() <= usize::MAX,
    {
    }

    /// Create a bump allocator that operates in the buffer of `buf_len`
    /// bytes at address `buf_start`.
    pub fn new(buf_start: usize, buf_len: usize) -> (bump: Self)
        requires
            buf_len >= 1,
            buf_start + buf_len - 1 <= usize::MAX,
        ensures
            bump.ptr() == buf_start,
            bump.last_addr() == buf_start + buf_len - 1,
    {
        BumpAlloc { ptr: buf_start, last_addr: buf_start + (buf_len - 1) }
    }

    /// The address at which the next allocation starts, before alignment.
    pub fn position(&self) -> (p: usize)
        ensures
            p == self.ptr(),
    {
        self.ptr
    }

    /// Whether the pointer lies within the buffer.
    pub fn ptr_in_bounds(&self) -> (r: bool)
        ensures
            r == (self.ptr() <= self.last_addr()),
    {
        self.ptr <= self.last_addr
    }

    /// Whether a slice of `len` elements of type `T` can be allocated.
    pub fn slice_in_bounds<T>(&self, len: usize) -> (r: bool)
        ensures
            r == self.fits(size_of::<T>() as int, align_of::<T>() as int, len as int),
    {
        proof {
            broadcast use align_nonzero;
        }
        let size = core::mem::size_of::<T>();
        let align = core::mem::align_of::<T>();
        match align_ptr(self.ptr, align) {
            Some(start) => {
                if start > self.last_addr {
                    return false;
                }
                proof {
                    assert(len * size <= usize::MAX ==> len * size == (len as int) * (size as int));
                    assert(len as int * (size as int) >= 0) by (nonlinear_arith)
                        requires
                            len >= 0,
                            size >= 0,
                    ;
                }
                match len.checked_mul(size) {
                    Some(bytes) => bytes <= self.last_addr - start,
                    None => false,
                }
            },
            None => false,
        }
    }

    /// Allocates a slice of `len` elements of type `T` and returns its
    /// address, which is aligned for `T`.
    pub fn alloc_slice<T>(&mut self, len: usize) -> (addr: usize)
        requires
            old(self).fits(size_of::<T>() as int, align_of::<T>() as int, len as int),
        ensures
            addr == align_up(old(self).ptr(), align_of::<T>() as int),
            (addr as int) % (align_of::<T>() as int) == 0,
            final(self).ptr() == bumped(
                old(self).ptr(),
                size_of::<T>() as int,
                align_of::<T>() as int,
                len as int,
            ),
            final(self).last_addr() == old(self).last_addr(),
    {
        proof {
            broadcast use align_nonzero;
            lemma_align_up(self.ptr as int, align_of::<T>() as int);
            assert(len as int * (size_of::<T>() as int) >= 0) by (nonlinear_arith)
                requires
                    len >= 0,
                    size_of::<T>() >= 0,
            ;
        }
        let start = align_ptr(self.ptr, core::mem::align_of::<T>()).unwrap();
        self.ptr = start + len * core::mem::size_of::<T>();
        start
    }

    /// Whether the pointer can be moved as by an allocation of a slice of
    /// `len` elements of type `T`.
    pub fn mock_in_bounds<T>(&self, len: usize) -> (r: bool)
        ensures
            r == self.mock_fits(size_of::<T>() as int, align_of::<T>() as int, len as int),
    {
        proof {
            broadcast use align_nonzero;
        }
        let size = core::mem::size_of::<T>();
        let align = core::mem::align_of::<T>();
        match align_ptr(self.ptr, align) {
            Some(start) => {
                if start > self.last_addr {
                    return false;
                }
                proof {
                    assert(len * size <= usize::MAX ==> len * size == (len as int) * (size as int));
                    assert(len as int * (size as int) >= 0) by (nonlinear_arith)
                        requires
                            len >= 0,
                            size >= 0,
                    ;
                }
                match len.checked_mul(size) {
                    Some(bytes) => bytes <= usize::MAX - start,
                    None => false,
                }
            },
            None => false,
        }
    }

    /// Moves the pointer as an allocation of a slice of `len` elements of
    /// type `T` would, without handing out anything. The slice may reach
    /// past the end of the buffer.
    pub fn alloc_slice_mock<T>(&mut self, len: usize)
        requires
            old(self).mock_fits(size_of::<T>() as int, align_of::<T>() as int, len as int),
        ensures
            final(self).ptr() == bumped(
                old(self).ptr(),
                size_of::<T>() as int,
                align_of::<T>() as int,
                len as int,
            ),
            final(self).last_addr() == old(self).last_addr(),
    {
        proof {
            broadcast use align_nonzero;
            lemma_align_up(self.ptr as int, align_of::<T>() as int);
            assert(len as int * (size_of::<T>() as int) >= 0) by (nonlinear_arith)
                requires
                    len >= 0,
                    size_of::<T>() >= 0,
            ;
        }
        let start = align_ptr(self.ptr, core::mem::align_of::<T>()).unwrap();
        self.ptr = start + len * core::mem::size_of::<T>();
    }

    /// The mock pass and the actual pass agree: started at the same
    /// address, a mock allocation and an actual allocation of a slice of
    /// the same kind leave the pointer at the same address.
    pub proof fn lemma_passes_agree<T>(
        mock_before: &BumpAlloc,
        mock_after: &BumpAlloc,
        actual_before: &BumpAlloc,
        actual_after: &BumpAlloc,
        len: usize,
    )
        requires
            mock_before.ptr() == actual_before.ptr(),
            mock_after.ptr() == bumped(
                mock_before.ptr(),
                size_of::<T>() as int,
                align_of::<T>() as int,
                len as int,
            ),
            actual_after.ptr() == bumped(
                actual_before.ptr(),
                size_of::<T>() as int,
                align_of::<T>() as int,
                len as int,
            ),
        ensures
            mock_after.ptr() == actual_after.ptr(),
    {
    }
}

/// Rounding up to a multiple of `align` gives the least multiple of
/// `align` that is not below the address.
pub proof fn lemma_align_up(addr: int, align: int)
    requires
        addr >= 0,
        align >= 1,
    ensures
        align_up(addr, align) % align == 0,
        addr <= align_up(addr, align) < addr + align,
{
    let q = (addr + align - 1) / align;
    vstd::arithmetic::div_mod::lemma_fundamental_div_mod(addr + align - 1, align);
    vstd::arithmetic::div_mod::lemma_mod_multiples_basic(q, align);
    assert(q * align == align * q) by (nonlinear_arith);
}

/// Rounds `ptr` up to the next multiple of `align`. Returns `None` if that
/// multiple lies beyond the address space.
pub fn align_ptr(ptr: usize, align: usize) -> (r: Option<usize>)
    requires
        align >= 1,
    ensures
        match r {
            Some(aligned) => aligned == align_up(ptr as int, align as int),
            None => align_up(ptr as int, align as int) > usize::MAX,
        },
{
    proof {
        lemma_align_up(ptr as int, align as int);
        vstd::arithmetic::div_mod::lemma_fundamental_div_mod(ptr as int, align as int);
    }
    let rem = ptr % align;
    if rem == 0 {
        proof {
            let q = ptr as int / (align as int);
            assert(ptr == align * q);
            assert(q * align == align * q) by (nonlinear_arith);
            vstd::arithmetic::div_mod::lemma_fundamental_div_mod_converse(
                ptr + align - 1,
                align as int,
                q,
                align - 1,
            );
            assert(q * align == align * q) by (nonlinear_arith);
        }
        Some(ptr)
    } else {
        let offset = align - rem;
        proof {
            let q = ptr as int / (align as int);
            assert(ptr == align * q + rem);
            assert(align * (q + 1) == align * q + align) by (nonlinear_arith);
            assert((q + 1) * align == align * (q + 1)) by (nonlinear_arith);
            vstd::arithmetic::div_mod::lemma_fundamental_div_mod_converse(
                ptr + align - 1,
                align as int,
                q + 1,
                rem - 1,
            );
            assert((q + 1) * align == align * (q + 1)) by (nonlinear_arith);
        }
        if offset > usize::MAX - ptr {
            None
        } else {
            Some(ptr + offset)
        }
    }
}

} // verus!
