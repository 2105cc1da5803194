use vstd::prelude::*;
use vstd::slice::slice_subrange;
use crate::emu32::maps::mem32::{
    word_value, dword_value, word_bytes, dword_bytes, overwrite, lemma_dword_roundtrip,
};

verus! {

/// The value of eight bytes read in little-endian order.
pub open spec fn qword_value(b: Seq<u8>) -> int {
    dword_value(b[0], b[1], b[2], b[3]) + 0x1_0000_0000 * dword_value(b[4], b[5], b[6], b[7])
}

/// The eight bytes of `v`, least significant first.
pub open spec fn qword_bytes(v: u64) -> Seq<u8> {
    dword_bytes((v % 0x1_0000_0000) as u32) + dword_bytes((v / 0x1_0000_0000) as u32)
}

/// Abstract contents of one memory region: where it starts and the bytes it holds.
#[verifier::ext_equal]
pub struct MemRegion {
    pub base: u64,
    pub bytes: Seq<u8>,
}

impl MemRegion {
    /// One past the last address of the region.
    pub open spec fn bottom(self) -> int {
        self.base + self.bytes.len()
    }

    /// `addr` lies inside the region.
    pub open spec fn holds(self, addr: int) -> bool {
        self.base <= addr < self.bottom()
    }

    /// The `n` addresses starting at `addr` all lie inside the region.
    pub open spec fn fits(self, addr: int, n: int) -> bool {
        self.base <= addr && addr + n <= self.bottom()
    }

    /// The byte stored at `addr`.
    pub open spec fn byte_at(self, addr: int) -> u8 {
        self.bytes[addr - self.base]
    }

    /// The little-endian 16-bit value stored at `addr`.
    pub open spec fn word_at(self, addr: int) -> int {
        word_value(self.byte_at(addr), self.byte_at(addr + 1))
    }

    /// The little-endian 32-bit value stored at `addr`.
    pub open spec fn dword_at(self, addr: int) -> int {
        dword_value(
            self.byte_at(addr),
            self.byte_at(addr + 1),
            self.byte_at(addr + 2),
            self.byte_at(addr + 3),
        )
    }

    /// The little-endian 64-bit value stored at `addr`.
    pub open spec fn qword_at(self, addr: int) -> int {
        qword_value(self.bytes.subrange(addr - self.base, addr - self.base + 8))
    }

    /// The region after `data` is stored from `addr` on.
    pub open spec fn store(self, addr: int, data: Seq<u8>) -> MemRegion {
        MemRegion { base: self.base, bytes: overwrite(self.bytes, addr - self.base, data) }
    }

    /// The `sz` bytes from `addr` on, or nothing when they run past the region's end.
    pub open spec fn bytes_from(self, addr: int, sz: int) -> Seq<u8> {
        if addr - self.base + sz > self.bytes.len() {
            Seq::empty()
        } else {
            self.bytes.subrange(addr - self.base, addr - self.base + sz)
        }
    }
}

/// Reading back the little-endian bytes of a quad word gives the quad word.
pub proof fn lemma_qword_roundtrip(v: u64)
    ensures
        qword_value(qword_bytes(v)) == v,
{
    let lo = (v % 0x1_0000_0000) as u32;
    let hi = (v / 0x1_0000_0000) as u32;
    lemma_dword_roundtrip(lo);
    lemma_dword_roundtrip(hi);
    let b = qword_bytes(v);
    assert(b[0] == dword_bytes(lo)[0] && b[1] == dword_bytes(lo)[1] && b[2] == dword_bytes(lo)[2]
        && b[3] == dword_bytes(lo)[3]);
    assert(b[4] == dword_bytes(hi)[0] && b[5] == dword_bytes(hi)[1] && b[6] == dword_bytes(hi)[2]
        && b[7] == dword_bytes(hi)[3]);
}

/// A contiguous block of emulated 64-bit memory.
pub struct Mem64 {
    base_addr: u64,
    mem: Vec<u8>,
}

impl View for Mem64 {
    type V = MemRegion;

    closed spec fn view(&self) -> MemRegion {
        MemRegion { base: self.base_addr, bytes: self.mem@ }
    }
}

impl Mem64 {
    /// The whole region lies inside the 64-bit address space, so its end is a valid `u64`.
    #[verifier::type_invariant]
    spec fn fits_address_space(&self) -> bool {
        self.base_addr + self.mem@.len() <= u64::MAX
    }

    /// An empty region at address 0.
    pub fn new() -> (m: Mem64)
        ensures
            m@.base == 0,
            m@.bytes.len() == 0,
    {
        Mem64 { base_addr: 0, mem: Vec::new() }
    }

    /// Number of bytes held.
    pub fn size(&self) -> (n: usize)
        ensures
            n == self@.bytes.len(),
    {
        self.mem.len()
    }

    /// First address of the region.
    pub fn get_base(&self) -> (b: u64)
        ensures
            b == self@.base,
    {
        self.base_addr
    }

    /// One past the last address of the region.
    pub fn get_bottom(&self) -> (b: u64)
        ensures
            b == self@.bottom(),
    {
        proof {
            use_type_invariant(self);
        }
        self.base_addr + self.mem.len() as u64
    }

    /// Whether `addr` lies inside the region.
    pub fn inside(&self, addr: u64) -> (r: bool)
        ensures
            r == self@.holds(addr as int),
    {
        proof {
            use_type_invariant(self);
        }
        addr >= self.base_addr && addr < self.base_addr + self.mem.len() as u64
    }

    /// Moves the region to `base_addr`, leaving it empty.
    pub fn set_base(&mut self, base_addr: u64)
        ensures
            final(self)@.base == base_addr,
            final(self)@.bytes.len() == 0,
    {
        *self = Mem64 { base_addr, mem: Vec::new() };
    }

    /// Gives the region `size` zero bytes from its base on.
    pub fn set_size(&mut self, size: u64)
        requires
            old(self)@.base + size <= u64::MAX,
        ensures
            final(self)@.base == old(self)@.base,
            final(self)@.bytes == Seq::new(size as nat, |i: int| 0u8),
    {
        let mut v: Vec<u8> = Vec::new();
        let mut i: u64 = 0;
        while i < size
            invariant
                i <= size,
                v@ == Seq::new(i as nat, |k: int| 0u8),
            decreases size - i,
        {
            v.push(0u8);
            i = i + 1;
        }
        self.mem = v;
    }

    /// The byte at `addr`.
    pub fn read_byte(&self, addr: u64) -> (b: u8)
        requires
            self@.holds(addr as int),
        ensures
            b == self@.byte_at(addr as int),
    {
        proof {
            use_type_invariant(self);
        }
        assert(self.mem.len() == self.mem@.len());
        let idx = (addr - self.base_addr) as usize;
        self.mem[idx]
    }

    /// The little-endian word at `addr`.
    pub fn read_word(&self, addr: u64) -> (w: u16)
        requires
            self@.fits(addr as int, 2),
        ensures
            w == self@.word_at(addr as int),
    {
        proof {
            use_type_invariant(self);
        }
        assert(self.mem.len() == self.mem@.len());
        let idx = (addr - self.base_addr) as usize;
        let lo = self.mem[idx] as u16;
        let hi = self.mem[idx + 1] as u16;
        lo + hi * 256
    }

    /// The little-endian double word at `addr`.
    pub fn read_dword(&self, addr: u64) -> (d: u32)
        requires
            self@.fits(addr as int, 4),
        ensures
            d == self@.dword_at(addr as int),
    {
        proof {
            use_type_invariant(self);
        }
        assert(self.mem.len() == self.mem@.len());
        let idx = (addr - self.base_addr) as usize;
        let b0 = self.mem[idx] as u32;
        let b1 = self.mem[idx + 1] as u32;
        let b2 = self.mem[idx + 2] as u32;
        let b3 = self.mem[idx + 3] as u32;
        b0 + b1 * 256 + b2 * 65536 + b3 * 16777216
    }

    /// The little-endian quad word at `addr`.
    pub fn read_qword(&self, addr: u64) -> (q: u64)
        requires
            self@.fits(addr as int, 8),
        ensures
            q == self@.qword_at(addr as int),
    {
        proof {
            use_type_invariant(self);
        }
        assert(self.mem.len() == self.mem@.len());
        let idx = (addr - self.base_addr) as usize;
        let lo = self.mem[idx] as u64 + self.mem[idx + 1] as u64 * 256 + self.mem[idx + 2] as u64
            * 65536 + self.mem[idx + 3] as u64 * 16777216;
        let hi = self.mem[idx + 4] as u64 + self.mem[idx + 5] as u64 * 256 + self.mem[idx + 6] as u64
            * 65536 + self.mem[idx + 7] as u64 * 16777216;
        assert(self.mem@.subrange(idx as int, idx + 8)[0] == self.mem@[idx as int]);
        lo + hi * 0x1_0000_0000
    }

    /// Stores `value` at `addr`.
    pub fn write_byte(&mut self, addr: u64, value: u8)
        requires
            old(self)@.holds(addr as int),
        ensures
            final(self)@ == old(self)@.store(addr as int, seq![value]),
        no_unwind
    {
        proof {
            use_type_invariant(&*self);
        }
        assert(self.mem.len() == self.mem@.len());
        let idx = (addr - self.base_addr) as usize;
        self.mem[idx] = value;
        assert(self@ =~= old(self)@.store(addr as int, seq![value]));
    }

    /// Stores `value` at `addr`, least significant byte first.
    pub fn write_word(&mut self, addr: u64, value: u16)
        requires
            old(self)@.fits(addr as int, 2),
        ensures
            final(self)@ == old(self)@.store(addr as int, word_bytes(value)),
        no_unwind
    {
        proof {
            use_type_invariant(&*self);
        }
        assert(self.mem.len() == self.mem@.len());
        let idx = (addr - self.base_addr) as usize;
        self.mem[idx] = (value % 256) as u8;
        self.mem[idx + 1] = (value / 256) as u8;
        assert(self@ =~= old(self)@.store(addr as int, word_bytes(value)));
    }

    /// Stores `value` at `addr`, least significant byte first.
    pub fn write_qword(&mut self, addr: u64, value: u64)
        requires
            old(self)@.fits(addr as int, 8),
        ensures
            final(self)@ == old(self)@.store(addr as int, qword_bytes(value)),
        no_unwind
    {
        proof {
            use_type_invariant(&*self);
        }
        assert(self.mem.len() == self.mem@.len());
        let idx = (addr - self.base_addr) as usize;
        let lo = (value % 0x1_0000_0000) as u32;
        let hi = (value / 0x1_0000_0000) as u32;
        self.mem[idx] = (lo % 256) as u8;
        self.mem[idx + 1] = ((lo / 256) % 256) as u8;
        self.mem[idx + 2] = ((lo / 65536) % 256) as u8;
        self.mem[idx + 3] = (lo / 16777216) as u8;
        self.mem[idx + 4] = (hi % 256) as u8;
        self.mem[idx + 5] = ((hi / 256) % 256) as u8;
        self.mem[idx + 6] = ((hi / 65536) % 256) as u8;
        self.mem[idx + 7] = (hi / 16777216) as u8;
        assert(self@ =~= old(self)@.store(addr as int, qword_bytes(value)));
    }

    /// Stores `value` at `addr`, least significant byte first.
    pub fn write_dword(&mut self, addr: u64, value: u32)
        requires
            old(self)@.fits(addr as int, 4),
        ensures
            final(self)@ == old(self)@.store(addr as int, dword_bytes(value)),
        no_unwind
    {
        proof {
            use_type_invariant(&*self);
        }
        assert(self.mem.len() == self.mem@.len());
        let idx = (addr - self.base_addr) as usize;
        self.mem[idx] = (value % 256) as u8;
        self.mem[idx + 1] = ((value / 256) % 256) as u8;
        self.mem[idx + 2] = ((value / 65536) % 256) as u8;
        self.mem[idx + 3] = (value / 16777216) as u8;
        assert(self@ =~= old(self)@.store(addr as int, dword_bytes(value)));
    }

    /// The `sz` bytes from `addr` on; empty when they run past the region's end.
    pub fn read_bytes(&self, addr: u64, sz: usize) -> (r: &[u8])
        requires
            self@.holds(addr as int),
        ensures
            r@ == self@.bytes_from(addr as int, sz as int),
    {
        proof {
            use_type_invariant(self);
        }
        assert(self.mem.len() == self.mem@.len());
        let idx = (addr - self.base_addr) as usize;
        if sz > self.mem.len() - idx {
            slice_subrange(self.mem.as_slice(), 0, 0)
        } else {
            slice_subrange(self.mem.as_slice(), idx, idx + sz)
        }
    }
}

} // verus!
