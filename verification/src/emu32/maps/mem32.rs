use vstd::prelude::*;
use vstd::slice::slice_subrange;

verus! {

/// The value of two bytes read in little-endian order.
pub open spec fn word_value(lo: u8, hi: u8) -> int {
    lo + 256 * hi
}

/// The value of four bytes read in little-endian order.
pub open spec fn dword_value(b0: u8, b1: u8, b2: u8, b3: u8) -> int {
    b0 + 256 * b1 + 65536 * b2 + 16777216 * b3
}

/// The two bytes of `v`, least significant first.
pub open spec fn word_bytes(v: u16) -> Seq<u8> {
    seq![(v % 256) as u8, (v / 256) as u8]
}

/// The four bytes of `v`, least significant first.
pub open spec fn dword_bytes(v: u32) -> Seq<u8> {
    seq![
        (v % 256) as u8,
        ((v / 256) % 256) as u8,
        ((v / 65536) % 256) as u8,
        (v / 16777216) as u8,
    ]
}

/// `s` with the bytes of `data` placed from position `off` on; positions
/// outside `s` are dropped, so the length never changes.
pub open spec fn overwrite(s: Seq<u8>, off: int, data: Seq<u8>) -> Seq<u8> {
    Seq::new(s.len(), |i: int| if off <= i < off + data.len() { data[i - off] } else { s[i] })
}

/// Abstract contents of one memory region: where it starts and the bytes it holds.
#[verifier::ext_equal]
pub struct MemRegion {
    pub base: u32,
    pub bytes: Seq<u8>,
}

impl MemRegion {
    /// One past the last address of the region.
    pub open spec fn bottom(self) -> int {
        self.base + self.bytes.len()
    }

    /// `addr` lies inside the region.
    pub open spec fn holds(self, addr: int) -> bool {
        self.base <= addr < self.bottom()
    }

    /// The `n` addresses starting at `addr` all lie inside the region.
    pub open spec fn fits(self, addr: int, n: int) -> bool {
        self.base <= addr && addr + n <= self.bottom()
    }

    /// The byte stored at `addr`.
    pub open spec fn byte_at(self, addr: int) -> u8 {
        self.bytes[addr - self.base]
    }

    /// The little-endian 16-bit value stored at `addr`.
    pub open spec fn word_at(self, addr: int) -> int {
        word_value(self.byte_at(addr), self.byte_at(addr + 1))
    }

    /// The little-endian 32-bit value stored at `addr`.
    pub open spec fn dword_at(self, addr: int) -> int {
        dword_value(
            self.byte_at(addr),
            self.byte_at(addr + 1),
            self.byte_at(addr + 2),
            self.byte_at(addr + 3),
        )
    }

    /// The region after `data` is stored from `addr` on.
    pub open spec fn store(self, addr: int, data: Seq<u8>) -> MemRegion {
        MemRegion { base: self.base, bytes: overwrite(self.bytes, addr - self.base, data) }
    }

    /// The `sz` bytes from `addr` on, or nothing when they run past the region's end.
    pub open spec fn bytes_from(self, addr: int, sz: int) -> Seq<u8> {
        if addr - self.base + sz > self.bytes.len() {
            Seq::empty()
        } else {
            self.bytes.subrange(addr - self.base, addr - self.base + sz)
        }
    }
}

/// Reading back the little-endian bytes of a word gives the word.
pub proof fn lemma_word_roundtrip(v: u16)
    ensures
        word_value(word_bytes(v)[0], word_bytes(v)[1]) == v,
{
    let lo = (v % 256) as u8;
    let hi = (v / 256) as u8;
    assert(lo == v % 256);
    assert(hi == v / 256);
}

/// Reading back the little-endian bytes of a double word gives the double word.
pub proof fn lemma_dword_roundtrip(v: u32)
    ensures
        dword_value(dword_bytes(v)[0], dword_bytes(v)[1], dword_bytes(v)[2], dword_bytes(v)[3])
            == v,
{
    let x = v as int;
    let q1 = x / 256;
    let q2 = x / 65536;
    let q3 = x / 16777216;
    assert(q2 == q1 / 256) by (nonlinear_arith)
        requires
            q1 == x / 256,
            q2 == x / 65536,
            x >= 0,
    ;
    assert(q3 == q2 / 256) by (nonlinear_arith)
        requires
            q2 == x / 65536,
            q3 == x / 16777216,
            x >= 0,
    ;
    assert(q3 < 256) by (nonlinear_arith)
        requires
            q3 == x / 16777216,
            0 <= x < 0x1_0000_0000,
    ;
    assert(x == x % 256 + 256 * q1) by (nonlinear_arith)
        requires
            q1 == x / 256,
    ;
    assert(q1 == q1 % 256 + 256 * q2) by (nonlinear_arith)
        requires
            q2 == q1 / 256,
    ;
    assert(q2 == q2 % 256 + 256 * q3) by (nonlinear_arith)
        requires
            q3 == q2 / 256,
    ;
}

/// A contiguous block of emulated 32-bit memory.
pub struct Mem32 {
    base_addr: u32,
    mem: Vec<u8>,
}

impl View for Mem32 {
    type V = MemRegion;

    closed spec fn view(&self) -> MemRegion {
        MemRegion { base: self.base_addr, bytes: self.mem@ }
    }
}

impl Mem32 {
    /// The whole region lies below 4 GiB, so its end is a valid `u32`.
    #[verifier::type_invariant]
    spec fn fits_address_space(&self) -> bool {
        self.base_addr + self.mem@.len() <= u32::MAX
    }

    /// An empty region at address 0.
    pub fn new() -> (m: Mem32)
        ensures
            m@.base == 0,
            m@.bytes.len() == 0,
    {
        Mem32 { base_addr: 0, mem: Vec::new() }
    }

    /// Number of bytes held.
    pub fn size(&self) -> (n: usize)
        ensures
            n == self@.bytes.len(),
    {
        self.mem.len()
    }

    /// First address of the region.
    pub fn get_base(&self) -> (b: u32)
        ensures
            b == self@.base,
    {
        self.base_addr
    }

    /// One past the last address of the region.
    pub fn get_bottom(&self) -> (b: u32)
        ensures
            b == self@.bottom(),
    {
        proof {
            use_type_invariant(self);
        }
        self.base_addr + self.mem.len() as u32
    }

    /// Whether `addr` lies inside the region.
    pub fn inside(&self, addr: u32) -> (r: bool)
        ensures
            r == self@.holds(addr as int),
    {
        proof {
            use_type_invariant(self);
        }
        addr >= self.base_addr && addr < self.base_addr + self.mem.len() as u32
    }

    /// Moves the region to `base_addr`, leaving it empty.
    pub fn set_base(&mut self, base_addr: u32)
        ensures
            final(self)@.base == base_addr,
            final(self)@.bytes.len() == 0,
    {
        *self = Mem32 { base_addr, mem: Vec::new() };
    }

    /// Gives the region `size` zero bytes from its base on.
    pub fn set_size(&mut self, size: u32)
        requires
            old(self)@.base + size <= u32::MAX,
        ensures
            final(self)@.base == old(self)@.base,
            final(self)@.bytes == Seq::new(size as nat, |i: int| 0u8),
    {
        let mut v: Vec<u8> = Vec::new();
        let mut i: u32 = 0;
        while i < size
            invariant
                i <= size,
                v@ == Seq::new(i as nat, |k: int| 0u8),
            decreases size - i,
        {
            v.push(0u8);
            i = i + 1;
        }
        self.mem = v;
    }

    /// The byte at `addr`.
    pub fn read_byte(&self, addr: u32) -> (b: u8)
        requires
            self@.holds(addr as int),
        ensures
            b == self@.byte_at(addr as int),
    {
        proof {
            use_type_invariant(self);
        }
        let idx = (addr - self.base_addr) as usize;
        self.mem[idx]
    }

    /// The little-endian word at `addr`.
    pub fn read_word(&self, addr: u32) -> (w: u16)
        requires
            self@.fits(addr as int, 2),
        ensures
            w == self@.word_at(addr as int),
    {
        proof {
            use_type_invariant(self);
        }
        let idx = (addr - self.base_addr) as usize;
        let lo = self.mem[idx] as u16;
        let hi = self.mem[idx + 1] as u16;
        lo + hi * 256
    }

    /// The little-endian double word at `addr`.
    pub fn read_dword(&self, addr: u32) -> (d: u32)
        requires
            self@.fits(addr as int, 4),
        ensures
            d == self@.dword_at(addr as int),
    {
        proof {
            use_type_invariant(self);
        }
        let idx = (addr - self.base_addr) as usize;
        let b0 = self.mem[idx] as u32;
        let b1 = self.mem[idx + 1] as u32;
        let b2 = self.mem[idx + 2] as u32;
        let b3 = self.mem[idx + 3] as u32;
        b0 + b1 * 256 + b2 * 65536 + b3 * 16777216
    }

    /// Stores `value` at `addr`.
    pub fn write_byte(&mut self, addr: u32, value: u8)
        requires
            old(self)@.holds(addr as int),
        ensures
            final(self)@ == old(self)@.store(addr as int, seq![value]),
        no_unwind
    {
        proof {
            use_type_invariant(&*self);
        }
        let idx = (addr - self.base_addr) as usize;
        self.mem[idx] = value;
        assert(self@ =~= old(self)@.store(addr as int, seq![value]));
    }

    /// Stores `value` at `addr`, least significant byte first.
    pub fn write_word(&mut self, addr: u32, value: u16)
        requires
            old(self)@.fits(addr as int, 2),
        ensures
            final(self)@ == old(self)@.store(addr as int, word_bytes(value)),
        no_unwind
    {
        proof {
            use_type_invariant(&*self);
        }
        let idx = (addr - self.base_addr) as usize;
        self.mem[idx] = (value % 256) as u8;
        self.mem[idx + 1] = (value / 256) as u8;
        assert(self@ =~= old(self)@.store(addr as int, word_bytes(value)));
    }

    /// Stores `value` at `addr`, least significant byte first.
    pub fn write_dword(&mut self, addr: u32, value: u32)
        requires
            old(self)@.fits(addr as int, 4),
        ensures
            final(self)@ == old(self)@.store(addr as int, dword_bytes(value)),
        no_unwind
    {
        proof {
            use_type_invariant(&*self);
        }
        let idx = (addr - self.base_addr) as usize;
        self.mem[idx] = (value % 256) as u8;
        self.mem[idx + 1] = ((value / 256) % 256) as u8;
        self.mem[idx + 2] = ((value / 65536) % 256) as u8;
        self.mem[idx + 3] = (value / 16777216) as u8;
        assert(self@ =~= old(self)@.store(addr as int, dword_bytes(value)));
    }

    /// The `sz` bytes from `addr` on; empty when they run past the region's end.
    pub fn read_bytes(&self, addr: u32, sz: usize) -> (r: &[u8])
        requires
            self@.holds(addr as int),
        ensures
            r@ == self@.bytes_from(addr as int, sz as int),
    {
        proof {
            use_type_invariant(self);
        }
        let idx = (addr - self.base_addr) as usize;
        if sz > self.mem.len() - idx {
            slice_subrange(self.mem.as_slice(), 0, 0)
        } else {
            slice_subrange(self.mem.as_slice(), idx, idx + sz)
        }
    }
}

} // verus!
